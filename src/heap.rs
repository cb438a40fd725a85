//! The min-max heap: a vector holding the elements in tree layout and a
//! bound on their number.
use vstd::multiset::Multiset;
use vstd::prelude::*;

use crate::index::{
    grandparent, grandparent_of, in_subtree, is_child, is_grandchild, lemma_near_in_subtree,
    lemma_parent_level, lemma_subtree_after, lemma_subtree_trans, left, level_type, on_min_level,
    on_grand_chain, parent, parent_of, LevelType,
};
use crate::links::{
    beats, bounded_by, fits_above, grand_link, grand_ready, is_min_max_heap, lemma_drop_last_heap,
    lemma_in_root_subtree, lemma_links_after_write, lemma_replace_multiset, lemma_subtree_order,
    lemma_swap_multiset, lemma_swap_remove_multiset, lemma_under_top, links_except_grand,
    links_from, parent_link,
};
use crate::order::HeapOrd;

verus! {

/// Exchanges the elements at `i` and `j`.
fn swap_items<T: HeapOrd>(v: &mut Vec<T>, i: usize, j: usize)
    requires
        i < old(v).len(),
        j < old(v).len(),
    ensures
        final(v)@ == old(v)@.update(i as int, old(v)@[j as int]).update(j as int, old(v)@[i as int]),
        final(v)@.to_multiset() == old(v)@.to_multiset(),
{
    let ghost s = v@;
    let a = v[i].duplicate();
    let b = v[j].duplicate();
    v.set(i, b);
    v.set(j, a);
    proof {
        lemma_swap_multiset(s, i as int, j as int);
    }
}

/// Whether `x` ranks strictly before `y` in the direction given by `is_min`.
fn better<T: HeapOrd>(x: &T, y: &T, is_min: bool) -> (r: bool)
    ensures
        r == beats(*x, *y, is_min),
{
    if is_min {
        x.less(y)
    } else {
        y.less(x)
    }
}

/// Index of the best (by `is_min`) among the children and grandchildren of
/// `i`, or nothing when `i` is a leaf.
fn child_or_grandchild<T: HeapOrd>(s: &Vec<T>, i: usize, is_min: bool) -> (r: Option<usize>)
    requires
        i < s@.len(),
    ensures
        r is None <==> 2 * i + 1 >= s@.len(),
        r matches Some(m) ==> {
            &&& m < s@.len()
            &&& is_child(i as int, m as int) || is_grandchild(i as int, m as int)
            &&& forall|k: int|
                0 <= k < s@.len() && (is_child(i as int, k) || is_grandchild(i as int, k))
                    ==> !beats(#[trigger] s@[k], s@[m as int], is_min)
            &&& forall|k: int|
                0 <= k < m && (is_child(i as int, k) || is_grandchild(i as int, k)) ==> beats(
                    s@[m as int],
                    #[trigger] s@[k],
                    is_min,
                )
        },
{
    if i >= s.len() / 2 {
        return None;
    }
    let l = left(i);
    let mut out = l;
    let r = l + 1;
    if r < s.len() && better(&s[r], &s[out], is_min) {
        out = r;
    }
    if l < s.len() / 2 {
        let first = left(l);
        let mut idx: usize = first;
        while idx < s.len() && idx - first < 4
            invariant
                l == 2 * i + 1,
                r == l + 1,
                l < s@.len(),
                first == 4 * i + 3,
                first <= idx <= first + 4,
                idx <= s@.len(),
                out < s@.len(),
                out == l || out == r || (first <= out < idx),
                !beats(s@[l as int], s@[out as int], is_min),
                r < s@.len() ==> !beats(s@[r as int], s@[out as int], is_min),
                forall|t: int| first <= t < idx ==> !beats(#[trigger] s@[t], s@[out as int], is_min),
                l < out ==> beats(s@[out as int], s@[l as int], is_min),
                r < out ==> beats(s@[out as int], s@[r as int], is_min),
                forall|t: int| first <= t < idx && t < out ==> beats(s@[out as int], #[trigger] s@[t], is_min),
            decreases first + 4 - idx,
        {
            if better(&s[idx], &s[out], is_min) {
                out = idx;
            }
            idx = idx + 1;
        }
    }
    Some(out)
}

/// `x` is held in `m` and ranks at or before every element of `m`.
pub open spec fn is_least<T: HeapOrd>(m: Multiset<T>, x: T) -> bool {
    m.contains(x) && forall|y: T| m.contains(y) ==> x.rank() <= y.rank()
}

/// `x` is held in `m` and ranks at or after every element of `m`.
pub open spec fn is_greatest<T: HeapOrd>(m: Multiset<T>, x: T) -> bool {
    m.contains(x) && forall|y: T| m.contains(y) ==> y.rank() <= x.rank()
}

/// The least element of a nonempty multiset.
pub open spec fn least<T: HeapOrd>(m: Multiset<T>) -> T {
    choose|x: T| is_least(m, x)
}

/// The greatest element of a nonempty multiset.
pub open spec fn greatest<T: HeapOrd>(m: Multiset<T>) -> T {
    choose|x: T| is_greatest(m, x)
}

/// A heap of capacity `cap` holding `len` elements can take one more without
/// evicting.
pub open spec fn has_room(cap: nat, len: nat) -> bool {
    cap == 0 || len < cap
}

/// Elements held and value returned after `push_min(x)` on a heap holding `m`
/// with capacity `cap`: grow when there is room; when full, evict the least
/// element if `x` ranks after it, else hand `x` back.
pub open spec fn push_min_step<T: HeapOrd>(m: Multiset<T>, cap: nat, x: T) -> (Multiset<T>, Option<T>) {
    if has_room(cap, m.len()) {
        (m.insert(x), None)
    } else if least(m).rank() < x.rank() {
        (m.remove(least(m)).insert(x), Some(least(m)))
    } else {
        (m, Some(x))
    }
}

/// Elements held and value returned after `push_max(x)`: as `push_min_step`,
/// evicting the greatest element when `x` ranks before it.
pub open spec fn push_max_step<T: HeapOrd>(m: Multiset<T>, cap: nat, x: T) -> (Multiset<T>, Option<T>) {
    if has_room(cap, m.len()) {
        (m.insert(x), None)
    } else if x.rank() < greatest(m).rank() {
        (m.remove(greatest(m)).insert(x), Some(greatest(m)))
    } else {
        (m, Some(x))
    }
}

/// Elements held after `push_min` of each of `items` in order.
pub open spec fn push_all_min_result<T: HeapOrd>(m: Multiset<T>, cap: nat, items: Seq<T>) -> Multiset<T>
    decreases items.len(),
{
    if items.len() == 0 {
        m
    } else {
        push_min_step(push_all_min_result(m, cap, items.drop_last()), cap, items.last()).0
    }
}

/// Elements held after `push_max` of each of `items` in order.
pub open spec fn push_all_max_result<T: HeapOrd>(m: Multiset<T>, cap: nat, items: Seq<T>) -> Multiset<T>
    decreases items.len(),
{
    if items.len() == 0 {
        m
    } else {
        push_max_step(push_all_max_result(m, cap, items.drop_last()), cap, items.last()).0
    }
}

/// Where the greatest element of a heap stands: the root alone, else the
/// larger child of the root (the left one on a tie).
pub open spec fn max_pos<T: HeapOrd>(s: Seq<T>) -> int {
    if s.len() <= 1 {
        0
    } else if s.len() == 2 {
        1
    } else if s[2].rank() <= s[1].rank() {
        1
    } else {
        2
    }
}

/// Distinct elements have distinct ranks, so the least element is unique.
pub proof fn lemma_least_unique<T: HeapOrd>(m: Multiset<T>, x: T)
    requires
        is_least(m, x),
    ensures
        least(m) == x,
{
    let y = least(m);
    assert(is_least(m, y));
    T::rank_injective(x, y);
}

/// Distinct elements have distinct ranks, so the greatest element is unique.
pub proof fn lemma_greatest_unique<T: HeapOrd>(m: Multiset<T>, x: T)
    requires
        is_greatest(m, x),
    ensures
        greatest(m) == x,
{
    let y = greatest(m);
    assert(is_greatest(m, y));
    T::rank_injective(x, y);
}

/// The root of a nonempty heap is its least element.
pub proof fn lemma_root_least<T: HeapOrd>(s: Seq<T>)
    requires
        is_min_max_heap(s),
        s.len() > 0,
    ensures
        is_least(s.to_multiset(), s[0]),
        least(s.to_multiset()) == s[0],
{
    broadcast use vstd::seq_lib::group_to_multiset_ensures;

    assert(on_min_level(0));
    assert forall|y: T| s.to_multiset().contains(y) implies s[0].rank() <= y.rank() by {
        assert(s.contains(y));
        let j = choose|j: int| 0 <= j < s.len() && s[j] == y;
        lemma_in_root_subtree(j);
        lemma_subtree_order(s, 0, -1, 0, j);
    }
    assert(s.contains(s[0]));
    lemma_least_unique(s.to_multiset(), s[0]);
}

/// The element at `max_pos` of a nonempty heap is its greatest element.
pub proof fn lemma_top_greatest<T: HeapOrd>(s: Seq<T>)
    requires
        is_min_max_heap(s),
        s.len() > 0,
    ensures
        0 <= max_pos(s) < s.len(),
        is_greatest(s.to_multiset(), s[max_pos(s)]),
        greatest(s.to_multiset()) == s[max_pos(s)],
{
    broadcast use vstd::seq_lib::group_to_multiset_ensures;

    assert(on_min_level(0));
    lemma_parent_level(1);
    lemma_parent_level(2);
    if s.len() >= 2 {
        assert(parent_link(s, 1));
    }
    if s.len() >= 3 {
        assert(parent_link(s, 2));
    }
    assert forall|y: T| s.to_multiset().contains(y) implies y.rank() <= s[max_pos(s)].rank() by {
        assert(s.contains(y));
        let j = choose|j: int| 0 <= j < s.len() && s[j] == y;
        if j >= 1 {
            lemma_under_top(j);
            if in_subtree(1, j) {
                lemma_subtree_order(s, 0, -1, 1, j);
            } else {
                lemma_subtree_order(s, 0, -1, 2, j);
            }
        }
    }
    assert(s.contains(s[max_pos(s)]));
    lemma_greatest_unique(s.to_multiset(), s[max_pos(s)]);
}

/// A double-ended priority queue: the least and the greatest element can both
/// be read and removed. A heap with a nonzero capacity never holds more
/// elements than that; a capacity of zero means no bound.
#[derive(Clone)]
pub struct MinMaxHeap<T> {
    dat: Vec<T>,
    cap: usize,
}

impl<T: HeapOrd> View for MinMaxHeap<T> {
    type V = Seq<T>;

    /// The elements in their array layout.
    closed spec fn view(&self) -> Seq<T> {
        self.dat@
    }
}

impl<T: HeapOrd> MinMaxHeap<T> {
    /// The bound on the number of elements; zero for none.
    pub closed spec fn capacity(&self) -> nat {
        self.cap as nat
    }

    /// The elements held.
    pub open spec fn contents(&self) -> Multiset<T> {
        self@.to_multiset()
    }

    /// The heap property holds and the capacity is respected.
    pub open spec fn wf(&self) -> bool {
        &&& is_min_max_heap(self@)
        &&& (self.capacity() > 0 ==> self@.len() <= self.capacity())
    }

    /// An empty heap; `cap` bounds the number of elements, zero for no bound.
    pub fn new(cap: usize) -> (r: Self)
        ensures
            r.wf(),
            r@ == Seq::<T>::empty(),
            r.contents() =~= Multiset::<T>::empty(),
            r.capacity() == cap,
    {
        let r = MinMaxHeap { dat: Vec::new(), cap };
        proof {
            broadcast use vstd::seq_lib::group_to_multiset_ensures, vstd::multiset::group_multiset_properties;

            assert(r@.to_multiset().len() == 0);
        }
        r
    }

    /// As `new`, with room for `cap` elements allocated up front.
    pub fn with_capacity(cap: usize) -> (r: Self)
        ensures
            r.wf(),
            r@ == Seq::<T>::empty(),
            r.contents() =~= Multiset::<T>::empty(),
            r.capacity() == cap,
    {
        let r = MinMaxHeap { dat: Vec::with_capacity(cap), cap };
        proof {
            broadcast use vstd::seq_lib::group_to_multiset_ensures, vstd::multiset::group_multiset_properties;

            assert(r@.to_multiset().len() == 0);
        }
        r
    }

    /// A heap holding the elements of `v`, capped at their number.
    pub fn from_vec(v: Vec<T>) -> (r: Self)
        ensures
            r.wf(),
            r.contents() == v@.to_multiset(),
            r.capacity() == v@.len(),
    {
        let len = v.len();
        let mut out = MinMaxHeap { dat: v, cap: len };
        out.heapify();
        out
    }

    /// A heap holding the elements of `v`, with no bound.
    pub fn from_vec_growable(v: Vec<T>) -> (r: Self)
        ensures
            r.wf(),
            r.contents() == v@.to_multiset(),
            r.capacity() == 0,
    {
        let mut out = MinMaxHeap { dat: v, cap: 0 };
        out.heapify();
        out
    }

    /// The number of elements.
    pub fn len(&self) -> (r: usize)
        ensures
            r == self@.len(),
            r == self.contents().len(),
    {
        proof {
            broadcast use vstd::seq_lib::group_to_multiset_ensures;
        }
        self.dat.len()
    }

    pub fn is_empty(&self) -> (r: bool)
        ensures
            r == (self@.len() == 0),
            r == (self.contents().len() == 0),
    {
        self.len() == 0
    }

    /// Whether the heap has a bound on its number of elements.
    pub fn is_capped(&self) -> (r: bool)
        ensures
            r == (self.capacity() != 0),
    {
        self.cap != 0
    }

    /// The least element, or nothing when empty.
    pub fn peek_min(&self) -> (r: Option<&T>)
        requires
            self.wf(),
        ensures
            r is None <==> self@.len() == 0,
            r matches Some(x) ==> *x == least(self.contents()) && is_least(self.contents(), *x),
    {
        if self.is_empty() {
            None
        } else {
            proof {
                lemma_root_least(self@);
            }
            Some(&self.dat[0])
        }
    }

    /// The greatest element, or nothing when empty.
    pub fn peek_max(&self) -> (r: Option<&T>)
        requires
            self.wf(),
        ensures
            r is None <==> self@.len() == 0,
            r matches Some(x) ==> *x == greatest(self.contents()) && is_greatest(self.contents(), *x),
    {
        match self.max_idx() {
            None => None,
            Some(i) => {
                proof {
                    lemma_top_greatest(self@);
                }
                Some(&self.dat[i])
            },
        }
    }

    /// Index of the greatest element, or nothing when empty.
    fn max_idx(&self) -> (r: Option<usize>)
        ensures
            r is None <==> self@.len() == 0,
            r matches Some(i) ==> i == max_pos(self@) && i < self@.len(),
    {
        let len = self.dat.len();
        if len == 0 {
            None
        } else if len == 1 {
            Some(0)
        } else if len == 2 {
            Some(1)
        } else if self.dat[1].less(&self.dat[2]) {
            Some(2)
        } else {
            Some(1)
        }
    }

    /// Removes and returns the least element, or nothing when empty.
    pub fn pop_min(&mut self) -> (r: Option<T>)
        requires
            old(self).wf(),
        ensures
            final(self).wf(),
            final(self).capacity() == old(self).capacity(),
            old(self)@.len() == 0 ==> r is None && final(self)@ == old(self)@,
            old(self)@.len() > 0 ==> r == Some(least(old(self).contents())) && final(self).contents()
                == old(self).contents().remove(least(old(self).contents())),
    {
        let ghost s = self.dat@;
        let len = self.dat.len();
        if len == 0 {
            None
        } else if len == 1 {
            proof {
                lemma_root_least(s);
                lemma_swap_remove_multiset(s, 0);
                assert(s.update(0, s.last()) =~= s);
                lemma_drop_last_heap(s);
            }
            self.dat.pop()
        } else {
            let out = self.dat.swap_remove(0);
            proof {
                lemma_root_least(s);
                lemma_swap_remove_multiset(s, 0);
                lemma_links_after_write(s, self.dat@, 0);
            }
            let ghost anything = |x: T| true;
            self.trickle_down(0, Ghost(0), Ghost(anything));
            Some(out)
        }
    }

    /// Removes and returns the greatest element, or nothing when empty.
    pub fn pop_max(&mut self) -> (r: Option<T>)
        requires
            old(self).wf(),
        ensures
            final(self).wf(),
            final(self).capacity() == old(self).capacity(),
            old(self)@.len() == 0 ==> r is None && final(self)@ == old(self)@,
            old(self)@.len() > 0 ==> r == Some(greatest(old(self).contents())) && final(self).contents()
                == old(self).contents().remove(greatest(old(self).contents())),
    {
        let ghost s = self.dat@;
        let len = self.dat.len();
        if len == 0 {
            return None;
        }
        proof {
            lemma_top_greatest(s);
            lemma_root_least(s);
            lemma_parent_level(1);
            lemma_parent_level(2);
        }
        if len <= 2 {
            proof {
                lemma_swap_remove_multiset(s, s.len() - 1);
                assert(s.update(s.len() - 1, s.last()) =~= s);
                lemma_drop_last_heap(s);
            }
            self.dat.pop()
        } else if len == 3 {
            if self.dat[1].less(&self.dat[2]) {
                proof {
                    lemma_swap_remove_multiset(s, 2);
                    assert(s.update(2, s.last()) =~= s);
                    lemma_drop_last_heap(s);
                }
                self.dat.pop()
            } else {
                let out = self.dat.swap_remove(1);
                proof {
                    lemma_swap_remove_multiset(s, 1);
                    assert(parent_link(s, 2));
                    assert(parent_link(self.dat@, 1));
                }
                Some(out)
            }
        } else {
            let idx: usize = if self.dat[1].less(&self.dat[2]) {
                2
            } else {
                1
            };
            let out = self.dat.swap_remove(idx);
            let ghost t = self.dat@;
            let ghost above_root = |x: T| t[0].rank() <= x.rank();
            proof {
                lemma_swap_remove_multiset(s, idx as int);
                lemma_in_root_subtree(s.len() - 1);
                lemma_subtree_order(s, 0, -1, 0, s.len() - 1);
                lemma_links_after_write(s, t, idx as int);
                assert forall|j: int| in_subtree(idx as int, j) && j < t.len() implies above_root(#[trigger] t[j]) by {
                    lemma_in_root_subtree(j);
                    lemma_subtree_order(s, 0, -1, 0, j);
                }
            }
            self.trickle_down(idx, Ghost(0), Ghost(above_root));
            Some(out)
        }
    }

    /// Same as `push_min`.
    pub fn push(&mut self, item: T) -> (r: Option<T>)
        requires
            old(self).wf(),
        ensures
            final(self).wf(),
            final(self).capacity() == old(self).capacity(),
            (final(self).contents(), r) == push_min_step(old(self).contents(), old(self).capacity(), item),
            !has_room(old(self).capacity(), old(self)@.len()) && !(least(old(self).contents()).rank()
                < item.rank()) ==> final(self)@ == old(self)@,
    {
        self.push_min(item)
    }

    /// Same as `push_all_min`.
    pub fn push_all(&mut self, items: &[T])
        requires
            old(self).wf(),
        ensures
            final(self).wf(),
            final(self).capacity() == old(self).capacity(),
            final(self).contents() == push_all_min_result(old(self).contents(), old(self).capacity(), items@),
    {
        self.push_all_min(items)
    }

    /// Inserts `item`. With room left it is added and nothing is returned.
    /// When the heap is full, an item ranking after the least element
    /// replaces it and the least element is returned; any other item is
    /// returned and the heap is left as it was.
    pub fn push_min(&mut self, item: T) -> (r: Option<T>)
        requires
            old(self).wf(),
        ensures
            final(self).wf(),
            final(self).capacity() == old(self).capacity(),
            (final(self).contents(), r) == push_min_step(old(self).contents(), old(self).capacity(), item),
            !has_room(old(self).capacity(), old(self)@.len()) && !(least(old(self).contents()).rank()
                < item.rank()) ==> final(self)@ == old(self)@,
    {
        let ghost s = self.dat@;
        proof {
            broadcast use vstd::seq_lib::group_to_multiset_ensures;
        }
        if self.cap == 0 || self.dat.len() < self.cap {
            self.push_grow(item);
            None
        } else {
            proof {
                lemma_root_least(s);
            }
            if self.dat[0].less(&item) {
                let out = self.dat[0].duplicate();
                self.dat.set(0, item);
                proof {
                    lemma_replace_multiset(s, 0, item);
                    lemma_links_after_write(s, self.dat@, 0);
                }
                let ghost anything = |x: T| true;
                self.trickle_down(0, Ghost(0), Ghost(anything));
                Some(out)
            } else {
                Some(item)
            }
        }
    }

    /// Applies `push_min` to each of `items` in order.
    pub fn push_all_min(&mut self, items: &[T])
        requires
            old(self).wf(),
        ensures
            final(self).wf(),
            final(self).capacity() == old(self).capacity(),
            final(self).contents() == push_all_min_result(old(self).contents(), old(self).capacity(), items@),
    {
        let ghost m0 = self.contents();
        let mut k: usize = 0;
        while k < items.len()
            invariant
                k <= items@.len(),
                self.wf(),
                self.capacity() == old(self).capacity(),
                self.contents() == push_all_min_result(m0, self.capacity(), items@.subrange(0, k as int)),
            decreases items@.len() - k,
        {
            proof {
                let next = items@.subrange(0, k + 1);
                assert(next.drop_last() =~= items@.subrange(0, k as int));
            }
            self.push_min(items[k].duplicate());
            k = k + 1;
        }
        proof {
            assert(items@.subrange(0, k as int) =~= items@);
        }
    }

    /// Inserts `item`. With room left it is added and nothing is returned.
    /// When the heap is full, an item ranking before the greatest element
    /// replaces it and the greatest element is returned; any other item is
    /// returned and the heap is left as it was.
    pub fn push_max(&mut self, item: T) -> (r: Option<T>)
        requires
            old(self).wf(),
        ensures
            final(self).wf(),
            final(self).capacity() == old(self).capacity(),
            (final(self).contents(), r) == push_max_step(old(self).contents(), old(self).capacity(), item),
            !has_room(old(self).capacity(), old(self)@.len()) && !(item.rank() < greatest(
                old(self).contents(),
            ).rank()) ==> final(self)@ == old(self)@,
    {
        let ghost s = self.dat@;
        proof {
            broadcast use vstd::seq_lib::group_to_multiset_ensures;
        }
        if self.cap == 0 || self.dat.len() < self.cap {
            self.push_grow(item);
            return None;
        }
        proof {
            lemma_top_greatest(s);
            lemma_root_least(s);
            lemma_parent_level(1);
            lemma_parent_level(2);
        }
        let idx = match self.max_idx() {
            Some(i) => i,
            None => 0,
        };
        if item.less(&self.dat[idx]) {
            let out = self.dat[idx].duplicate();
            if idx > 0 && item.less(&self.dat[0]) {
                // The new item ranks below the root: it becomes the root and the
                // old root takes the freed slot.
                let root = self.dat[0].duplicate();
                self.dat.set(idx, root);
                self.dat.set(0, item);
                proof {
                    lemma_replace_multiset(s, idx as int, s[0]);
                    lemma_replace_multiset(s.update(idx as int, s[0]), 0, item);
                }
            } else {
                self.dat.set(idx, item);
                proof {
                    lemma_replace_multiset(s, idx as int, item);
                }
            }
            let ghost t = self.dat@;
            let ghost above_root = |x: T| t[0].rank() <= x.rank();
            proof {
                assert(t.to_multiset() =~= s.to_multiset().remove(s[idx as int]).insert(item));
                lemma_links_after_write(s, t, idx as int);
                assert forall|j: int| in_subtree(idx as int, j) && j < t.len() implies above_root(#[trigger] t[j]) by {
                    lemma_in_root_subtree(j);
                    lemma_subtree_order(s, 0, -1, 0, j);
                }
            }
            self.trickle_down(idx, Ghost(0), Ghost(above_root));
            Some(out)
        } else {
            Some(item)
        }
    }

    /// Applies `push_max` to each of `items` in order.
    pub fn push_all_max(&mut self, items: &[T])
        requires
            old(self).wf(),
        ensures
            final(self).wf(),
            final(self).capacity() == old(self).capacity(),
            final(self).contents() == push_all_max_result(old(self).contents(), old(self).capacity(), items@),
    {
        let ghost m0 = self.contents();
        let mut k: usize = 0;
        while k < items.len()
            invariant
                k <= items@.len(),
                self.wf(),
                self.capacity() == old(self).capacity(),
                self.contents() == push_all_max_result(m0, self.capacity(), items@.subrange(0, k as int)),
            decreases items@.len() - k,
        {
            proof {
                let next = items@.subrange(0, k + 1);
                assert(next.drop_last() =~= items@.subrange(0, k as int));
            }
            self.push_max(items[k].duplicate());
            k = k + 1;
        }
        proof {
            assert(items@.subrange(0, k as int) =~= items@);
        }
    }

    /// Moves the element at `i` down the heap until the links from `i` hold.
    /// Links above `i` that start before `lo` are left out of account.
    fn trickle_down_from(
        &mut self,
        i: usize,
        is_min: bool,
        Ghost(lo): Ghost<int>,
        Ghost(fits): Ghost<spec_fn(T) -> bool>,
    )
        requires
            is_min == on_min_level(i as int),
            0 <= lo <= i < old(self)@.len(),
            links_from(old(self)@, lo, i as int),
            forall|j: int|
                in_subtree(i as int, j) && j < old(self)@.len() ==> fits(#[trigger] old(self)@[j]),
            forall|x: T| #[trigger] fits(x) ==> fits_above(old(self)@, i as int, lo, x),
        ensures
            final(self).cap == old(self).cap,
            final(self)@.len() == old(self)@.len(),
            links_from(final(self)@, lo, -1),
            forall|j: int|
                0 <= j < old(self)@.len() && !in_subtree(i as int, j) ==> #[trigger] final(self)@[j]
                    == old(self)@[j],
            forall|j: int|
                in_subtree(i as int, j) && j < old(self)@.len() ==> fits(#[trigger] final(self)@[j]),
            final(self)@.to_multiset() == old(self)@.to_multiset(),
        decreases old(self)@.len() - i,
    {
        let ghost s0 = self.dat@;
        let ghost ii = i as int;
        proof {
            assert(in_subtree(ii, ii));
            if i > 0 {
                lemma_parent_level(ii);
            }
        }
        match child_or_grandchild(&self.dat, i, is_min) {
            None => {
                assert forall|j: int| 1 <= j < s0.len() && parent_of(j) >= lo implies #[trigger] parent_link(s0, j) by {
                    if parent_of(j) == ii {
                        assert(false);
                    }
                }
                assert forall|j: int| 3 <= j < s0.len() && grandparent_of(j) >= lo implies #[trigger] grand_link(s0, j) by {
                    if grandparent_of(j) == ii {
                        assert(false);
                    }
                }
            },
            Some(m) => {
                let ghost mm = m as int;
                proof {
                    lemma_near_in_subtree(ii, mm);
                    lemma_parent_level(mm);
                }
                if better(&self.dat[m], &self.dat[i], is_min) {
                    swap_items(&mut self.dat, i, m);
                }
                let ghost s1 = self.dat@;
                let p = parent(m);
                let ghost pp = p as int;
                if p != i {
                    proof {
                        lemma_near_in_subtree(ii, pp);
                        lemma_parent_level(pp);
                        assert(in_subtree(pp, pp));
                        assert(in_subtree(pp, mm));
                    }
                    if better(&self.dat[p], &self.dat[m], is_min) {
                        swap_items(&mut self.dat, p, m);
                    }
                    let ghost s2 = self.dat@;
                    let ghost below = |y: T| fits(y) && bounded_by(s2, ii, y) && bounded_by(s2, pp, y);
                    proof {
                        Self::lemma_descend_ready(s0, s1, s2, ii, mm, pp, lo, is_min, fits);
                    }
                    self.trickle_down_from(m, is_min, Ghost(lo), Ghost(below));
                    proof {
                        let s3 = self.dat@;
                        assert forall|j: int| in_subtree(ii, j) && j < s0.len() implies fits(#[trigger] s3[j]) by {
                            if in_subtree(mm, j) {
                                assert(below(s3[j]));
                            } else {
                                assert(s3[j] == s2[j]);
                                assert(fits(s0[j]));
                            }
                        }
                        assert forall|j: int| 0 <= j < s0.len() && !in_subtree(ii, j) implies #[trigger] s3[j] == s0[j] by {
                            if in_subtree(mm, j) {
                                lemma_subtree_trans(ii, mm, j);
                            }
                        }
                    }
                } else {
                    proof {
                        Self::lemma_child_step(s0, s1, ii, mm, lo, is_min, fits);
                    }
                }
            },
        }
    }

    /// Moves the element at `i` up along its own kind of level until the link
    /// to its grandparent holds.
    fn bubble_up_grand(&mut self, i: usize, is_min: bool)
        requires
            is_min == on_min_level(i as int),
            i < old(self)@.len(),
            links_except_grand(old(self)@, i as int),
            grand_ready(old(self)@, i as int),
        ensures
            final(self).cap == old(self).cap,
            final(self)@.len() == old(self)@.len(),
            is_min_max_heap(final(self)@),
            final(self)@.to_multiset() == old(self)@.to_multiset(),
            forall|j: int|
                0 <= j < old(self)@.len() && !on_grand_chain(i as int, j) ==> #[trigger] final(self)@[j]
                    == old(self)@[j],
            i < 3 ==> final(self)@ == old(self)@,
        decreases i,
    {
        let ghost s = self.dat@;
        if i < 3 {
            assert forall|j: int| 3 <= j < s.len() implies #[trigger] grand_link(s, j) by {
                assert(j != i);
            }
            return;
        }
        let g = grandparent(i);
        if better(&self.dat[i], &self.dat[g], is_min) {
            swap_items(&mut self.dat, i, g);
            proof {
                Self::lemma_climb_step(s, self.dat@, i as int, is_min);
            }
            self.bubble_up_grand(g, is_min);
            proof {
                assert(on_grand_chain(g as int, g as int));
            }
        } else {
            proof {
                lemma_parent_level(i as int);
                lemma_parent_level(parent_of(i as int));
                assert forall|j: int| 3 <= j < s.len() implies #[trigger] grand_link(s, j) by {
                    if j != i {
                        assert(grand_link(s, j));
                    }
                }
            }
        }
    }

    /// One exchange of `i` with its grandparent keeps the state ready for the
    /// next step from the grandparent.
    proof fn lemma_climb_step(s: Seq<T>, s1: Seq<T>, i: int, is_min: bool)
        requires
            is_min == on_min_level(i),
            3 <= i < s.len(),
            links_except_grand(s, i),
            grand_ready(s, i),
            beats(s[i], s[grandparent_of(i)], is_min),
            s1 == s.update(i, s[grandparent_of(i)]).update(grandparent_of(i), s[i]),
        ensures
            is_min == on_min_level(grandparent_of(i)),
            links_except_grand(s1, grandparent_of(i)),
            grand_ready(s1, grandparent_of(i)),
            grandparent_of(i) < i,
    {
        let p = parent_of(i);
        let g = grandparent_of(i);
        lemma_parent_level(i);
        lemma_parent_level(p);
        if g > 0 {
            lemma_parent_level(g);
        }
        assert(parent_link(s, p));
        assert forall|j: int| 1 <= j < s1.len() implies #[trigger] parent_link(s1, j) by {
            assert(parent_link(s, j));
            if parent_of(j) == i {
                assert(is_child(i, j));
                assert(bounded_by(s, g, s[j]));
            }
        }
        assert forall|j: int| 3 <= j < s1.len() && j != g implies #[trigger] grand_link(s1, j) by {
            if j != i {
                assert(grand_link(s, j));
            }
            if grandparent_of(j) == i {
                assert(is_grandchild(i, j));
                assert(bounded_by(s, g, s[j]));
            }
        }
        if g >= 3 {
            assert(grand_link(s, g));
            assert forall|j: int|
                0 <= j < s1.len() && (is_child(g, j) || is_grandchild(g, j)) implies #[trigger] bounded_by(
                s1,
                grandparent_of(g),
                s1[j],
            ) by {
                assert(parent_link(s, j));
                if j >= 3 && j != i {
                    assert(grand_link(s, j));
                }
            }
        }
    }

    /// Restores the heap after an element was appended at the last index `i`.
    fn bubble_up(&mut self, i: usize)
        requires
            i + 1 == old(self)@.len(),
            forall|j: int| 1 <= j < i ==> #[trigger] parent_link(old(self)@, j),
            forall|j: int| 3 <= j < i ==> #[trigger] grand_link(old(self)@, j),
        ensures
            final(self).cap == old(self).cap,
            final(self)@.len() == old(self)@.len(),
            is_min_max_heap(final(self)@),
            final(self)@.to_multiset() == old(self)@.to_multiset(),
    {
        let ghost s = self.dat@;
        if i == 0 {
            return;
        }
        let is_min = level_type(i) == LevelType::Min;
        let p = parent(i);
        proof {
            lemma_parent_level(i as int);
        }
        if better(&self.dat[p], &self.dat[i], is_min) {
            swap_items(&mut self.dat, i, p);
            proof {
                let s1 = self.dat@;
                if p > 0 {
                    lemma_parent_level(p as int);
                    assert(parent_link(s, p as int));
                }
                if p >= 3 {
                    assert(grand_link(s, p as int));
                }
                assert forall|j: int| 1 <= j < s1.len() implies #[trigger] parent_link(s1, j) by {
                    if j < i {
                        assert(parent_link(s, j));
                    }
                }
                assert forall|j: int| 3 <= j < s1.len() && j != p implies #[trigger] grand_link(s1, j) by {
                    if j < i {
                        assert(grand_link(s, j));
                    } else if p > 0 {
                        assert(parent_link(s, p as int));
                    }
                }
                if p >= 3 {
                    assert forall|j: int|
                        0 <= j < s1.len() && (is_child(p as int, j) || is_grandchild(p as int, j)) implies #[trigger] bounded_by(
                        s1,
                        grandparent_of(p as int),
                        s1[j],
                    ) by {
                        if j < i {
                            assert(parent_link(s, j));
                        }
                    }
                }
            }
            self.bubble_up_grand(p, !is_min);
        } else {
            proof {
                assert forall|j: int| 1 <= j < s.len() implies #[trigger] parent_link(s, j) by {
                }
            }
            self.bubble_up_grand(i, is_min);
        }
    }

    /// Appends an element and restores the heap.
    fn push_grow(&mut self, item: T)
        requires
            is_min_max_heap(old(self)@),
        ensures
            final(self).cap == old(self).cap,
            final(self)@.len() == old(self)@.len() + 1,
            is_min_max_heap(final(self)@),
            final(self)@.to_multiset() == old(self)@.to_multiset().insert(item),
    {
        let ghost s = self.dat@;
        self.dat.push(item);
        proof {
            broadcast use vstd::seq_lib::group_to_multiset_ensures;

            let s1 = self.dat@;
            assert forall|j: int| 1 <= j < s.len() implies #[trigger] parent_link(s1, j) by {
                assert(parent_link(s, j));
            }
            assert forall|j: int| 3 <= j < s.len() implies #[trigger] grand_link(s1, j) by {
                assert(grand_link(s, j));
            }
        }
        let last = self.dat.len() - 1;
        self.bubble_up(last);
    }

    /// Restores the links from `i` (see `trickle_down_from`).
    fn trickle_down(&mut self, i: usize, Ghost(lo): Ghost<int>, Ghost(fits): Ghost<spec_fn(T) -> bool>)
        requires
            0 <= lo <= i < old(self)@.len(),
            links_from(old(self)@, lo, i as int),
            forall|j: int|
                in_subtree(i as int, j) && j < old(self)@.len() ==> fits(#[trigger] old(self)@[j]),
            forall|x: T| #[trigger] fits(x) ==> fits_above(old(self)@, i as int, lo, x),
        ensures
            final(self).cap == old(self).cap,
            final(self)@.len() == old(self)@.len(),
            links_from(final(self)@, lo, -1),
            forall|j: int|
                0 <= j < old(self)@.len() && !in_subtree(i as int, j) ==> #[trigger] final(self)@[j]
                    == old(self)@[j],
            forall|j: int|
                in_subtree(i as int, j) && j < old(self)@.len() ==> fits(#[trigger] final(self)@[j]),
            final(self)@.to_multiset() == old(self)@.to_multiset(),
    {
        let is_min = level_type(i) == LevelType::Min;
        self.trickle_down_from(i, is_min, Ghost(lo), Ghost(fits));
    }

    /// Establishes the heap over arbitrary contents, repairing every node from
    /// the last to the root.
    fn heapify(&mut self)
        ensures
            final(self).cap == old(self).cap,
            final(self)@.len() == old(self)@.len(),
            is_min_max_heap(final(self)@),
            final(self)@.to_multiset() == old(self)@.to_multiset(),
    {
        let ghost s0 = self.dat@;
        let mut k: usize = self.dat.len();
        while k > 0
            invariant
                k <= self@.len(),
                self.cap == old(self).cap,
                self@.len() == s0.len(),
                links_from(self@, k as int, -1),
                self@.to_multiset() == s0.to_multiset(),
            decreases k,
        {
            k = k - 1;
            let ghost anything = |x: T| true;
            proof {
                let kk = k as int;
                if k > 0 {
                    lemma_parent_level(kk);
                }
                if k >= 3 {
                    lemma_parent_level(parent_of(kk));
                }
            }
            self.trickle_down(k, Ghost(k as int), Ghost(anything));
        }
    }

    /// After the exchanges at a grandchild `m` (through its parent `p`), the
    /// subtree of `m` is ready for the same repair.
    proof fn lemma_descend_ready(
        s0: Seq<T>,
        s1: Seq<T>,
        s2: Seq<T>,
        i: int,
        m: int,
        p: int,
        lo: int,
        is_min: bool,
        fits: spec_fn(T) -> bool,
    )
        requires
            is_min == on_min_level(i),
            0 <= lo <= i < s0.len(),
            links_from(s0, lo, i),
            forall|j: int| in_subtree(i, j) && j < s0.len() ==> fits(#[trigger] s0[j]),
            forall|x: T| #[trigger] fits(x) ==> fits_above(s0, i, lo, x),
            m < s0.len(),
            is_grandchild(i, m),
            p == parent_of(m),
            forall|k: int|
                0 <= k < s0.len() && (is_child(i, k) || is_grandchild(i, k)) ==> !beats(
                    #[trigger] s0[k],
                    s0[m],
                    is_min,
                ),
            beats(s0[m], s0[i], is_min) ==> s1 == s0.update(i, s0[m]).update(m, s0[i]),
            !beats(s0[m], s0[i], is_min) ==> s1 == s0,
            beats(s1[p], s1[m], is_min) ==> s2 == s1.update(p, s1[m]).update(m, s1[p]),
            !beats(s1[p], s1[m], is_min) ==> s2 == s1,
        ensures
            links_from(s2, lo, m),
            forall|j: int|
                in_subtree(m, j) && j < s2.len() ==> fits(#[trigger] s2[j]) && bounded_by(s2, i, s2[j])
                    && bounded_by(s2, p, s2[j]),
            forall|j: int| 0 <= j < s0.len() && !in_subtree(i, j) ==> #[trigger] s2[j] == s0[j],
            forall|j: int|
                in_subtree(i, j) && j < s0.len() && !in_subtree(m, j) ==> fits(#[trigger] s2[j]),
            s2.len() == s0.len(),
    {
        lemma_near_in_subtree(i, m);
        lemma_parent_level(m);
        lemma_near_in_subtree(i, p);
        lemma_parent_level(p);
        assert(in_subtree(p, p));
        assert(in_subtree(p, m));
        assert(in_subtree(i, i));
        assert(fits(s0[i]));
        assert(fits(s0[m]));
        assert(fits(s0[p]));
        assert(parent_link(s0, m));
        if i > 0 {
            lemma_parent_level(i);
        }
        assert forall|j: int| in_subtree(m, j) && j < s2.len() implies fits(#[trigger] s2[j]) && bounded_by(s2, i, s2[j])
            && bounded_by(s2, p, s2[j]) by {
            lemma_subtree_trans(i, m, j);
            lemma_subtree_trans(p, m, j);
            lemma_subtree_after(m, j);
            assert(fits(s0[j]));
            if j != m {
                lemma_subtree_order(s0, lo, i, m, j);
                lemma_subtree_order(s0, lo, i, p, j);
            }
        }
        assert forall|j: int| 0 <= j < s0.len() && !in_subtree(i, j) implies #[trigger] s2[j] == s0[j] by {
        }
        assert forall|j: int| in_subtree(i, j) && j < s0.len() && !in_subtree(m, j) implies fits(#[trigger] s2[j]) by {
            assert(fits(s0[j]));
        }
        assert forall|j: int| 1 <= j < s2.len() && parent_of(j) >= lo && parent_of(j) != m implies #[trigger] parent_link(s2, j) by {
            if 1 <= j < s0.len() && parent_of(j) >= lo && parent_of(j) != i {
                assert(parent_link(s0, j));
            }
            if j == i || j == p {
                assert(fits(s2[j]));
            }
            if parent_of(j) == i {
                assert(is_child(i, j));
                assert(!beats(s0[j], s0[m], is_min));
            }
        }
        assert forall|j: int| 3 <= j < s2.len() && grandparent_of(j) >= lo && grandparent_of(j) != m implies #[trigger] grand_link(s2, j) by {
            if 3 <= j < s0.len() && grandparent_of(j) >= lo && grandparent_of(j) != i {
                assert(grand_link(s0, j));
            }
            if j == i || j == p {
                assert(fits(s2[j]));
            }
            if grandparent_of(j) == i {
                assert(is_grandchild(i, j));
                assert(!beats(s0[j], s0[m], is_min));
            }
        }
    }

    /// When the best of the children and grandchildren of `i` is a child `m`,
    /// one exchange repairs the links from `i`.
    proof fn lemma_child_step(
        s0: Seq<T>,
        s1: Seq<T>,
        i: int,
        m: int,
        lo: int,
        is_min: bool,
        fits: spec_fn(T) -> bool,
    )
        requires
            is_min == on_min_level(i),
            0 <= lo <= i < s0.len(),
            links_from(s0, lo, i),
            forall|j: int| in_subtree(i, j) && j < s0.len() ==> fits(#[trigger] s0[j]),
            forall|x: T| #[trigger] fits(x) ==> fits_above(s0, i, lo, x),
            m < s0.len(),
            is_child(i, m),
            forall|k: int|
                0 <= k < s0.len() && (is_child(i, k) || is_grandchild(i, k)) ==> !beats(
                    #[trigger] s0[k],
                    s0[m],
                    is_min,
                ),
            beats(s0[m], s0[i], is_min) ==> s1 == s0.update(i, s0[m]).update(m, s0[i]),
            !beats(s0[m], s0[i], is_min) ==> s1 == s0,
        ensures
            links_from(s1, lo, -1),
            forall|j: int| in_subtree(i, j) && j < s0.len() ==> fits(#[trigger] s1[j]),
            forall|j: int| 0 <= j < s0.len() && !in_subtree(i, j) ==> #[trigger] s1[j] == s0[j],
    {
        lemma_near_in_subtree(i, m);
        lemma_parent_level(m);
        assert(in_subtree(i, i));
        assert(fits(s0[i]));
        assert(fits(s0[m]));
        if i > 0 {
            lemma_parent_level(i);
        }
        assert forall|j: int| in_subtree(i, j) && j < s0.len() implies fits(#[trigger] s1[j]) by {
            assert(fits(s0[j]));
        }
        assert forall|j: int| 1 <= j < s1.len() && parent_of(j) >= lo implies #[trigger] parent_link(s1, j) by {
            if parent_of(j) == i {
                assert(is_child(i, j));
                assert(!beats(s0[j], s0[m], is_min));
                assert(parent_link(s1, j));
            } else if j == i {
                assert(fits(s1[j]));
                assert(parent_link(s1, j));
            } else if parent_of(j) == m {
                assert(parent_link(s0, j));
                assert(parent_link(s1, j));
            } else {
                assert(parent_link(s0, j));
                assert(parent_link(s1, j));
            }
        }
        assert forall|j: int| 3 <= j < s1.len() && grandparent_of(j) >= lo implies #[trigger] grand_link(s1, j) by {
            if grandparent_of(j) == i {
                assert(is_grandchild(i, j));
                assert(!beats(s0[j], s0[m], is_min));
                assert(grand_link(s1, j));
            } else if j == i || j == m {
                assert(fits(s1[j]));
                assert(grand_link(s1, j));
            } else if grandparent_of(j) == m {
                assert(grand_link(s0, j));
                assert(grand_link(s1, j));
            } else {
                assert(grand_link(s0, j));
                assert(grand_link(s1, j));
            }
        }
    }
}

} // verus!
