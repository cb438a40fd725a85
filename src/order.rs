//! The total order that heap elements are compared by.
use vstd::prelude::*;

verus! {

/// Elements that can be kept in a heap: totally ordered by an integer rank
/// (distinct elements have distinct ranks) and duplicable.
pub trait HeapOrd: Sized {
    /// The position of the element in the order.
    spec fn rank(&self) -> int;

    /// Two elements of the same rank are the same element.
    proof fn rank_injective(a: Self, b: Self)
        requires
            a.rank() == b.rank(),
        ensures
            a == b,
    ;

    /// Strict comparison.
    fn less(&self, other: &Self) -> (r: bool)
        ensures
            r == (self.rank() < other.rank()),
    ;

    /// A copy of the element.
    fn duplicate(&self) -> (r: Self)
        ensures
            r == *self,
    ;
}

impl HeapOrd for i8 {
    open spec fn rank(&self) -> int {
        *self as int
    }

    proof fn rank_injective(a: Self, b: Self) {
    }

    fn less(&self, other: &Self) -> (r: bool) {
        *self < *other
    }

    fn duplicate(&self) -> (r: Self) {
        *self
    }
}

impl HeapOrd for i16 {
    open spec fn rank(&self) -> int {
        *self as int
    }

    proof fn rank_injective(a: Self, b: Self) {
    }

    fn less(&self, other: &Self) -> (r: bool) {
        *self < *other
    }

    fn duplicate(&self) -> (r: Self) {
        *self
    }
}

impl HeapOrd for i32 {
    open spec fn rank(&self) -> int {
        *self as int
    }

    proof fn rank_injective(a: Self, b: Self) {
    }

    fn less(&self, other: &Self) -> (r: bool) {
        *self < *other
    }

    fn duplicate(&self) -> (r: Self) {
        *self
    }
}

impl HeapOrd for i64 {
    open spec fn rank(&self) -> int {
        *self as int
    }

    proof fn rank_injective(a: Self, b: Self) {
    }

    fn less(&self, other: &Self) -> (r: bool) {
        *self < *other
    }

    fn duplicate(&self) -> (r: Self) {
        *self
    }
}

impl HeapOrd for i128 {
    open spec fn rank(&self) -> int {
        *self as int
    }

    proof fn rank_injective(a: Self, b: Self) {
    }

    fn less(&self, other: &Self) -> (r: bool) {
        *self < *other
    }

    fn duplicate(&self) -> (r: Self) {
        *self
    }
}

impl HeapOrd for isize {
    open spec fn rank(&self) -> int {
        *self as int
    }

    proof fn rank_injective(a: Self, b: Self) {
    }

    fn less(&self, other: &Self) -> (r: bool) {
        *self < *other
    }

    fn duplicate(&self) -> (r: Self) {
        *self
    }
}

impl HeapOrd for u8 {
    open spec fn rank(&self) -> int {
        *self as int
    }

    proof fn rank_injective(a: Self, b: Self) {
    }

    fn less(&self, other: &Self) -> (r: bool) {
        *self < *other
    }

    fn duplicate(&self) -> (r: Self) {
        *self
    }
}

impl HeapOrd for u16 {
    open spec fn rank(&self) -> int {
        *self as int
    }

    proof fn rank_injective(a: Self, b: Self) {
    }

    fn less(&self, other: &Self) -> (r: bool) {
        *self < *other
    }

    fn duplicate(&self) -> (r: Self) {
        *self
    }
}

impl HeapOrd for u32 {
    open spec fn rank(&self) -> int {
        *self as int
    }

    proof fn rank_injective(a: Self, b: Self) {
    }

    fn less(&self, other: &Self) -> (r: bool) {
        *self < *other
    }

    fn duplicate(&self) -> (r: Self) {
        *self
    }
}

impl HeapOrd for u64 {
    open spec fn rank(&self) -> int {
        *self as int
    }

    proof fn rank_injective(a: Self, b: Self) {
    }

    fn less(&self, other: &Self) -> (r: bool) {
        *self < *other
    }

    fn duplicate(&self) -> (r: Self) {
        *self
    }
}

impl HeapOrd for u128 {
    open spec fn rank(&self) -> int {
        *self as int
    }

    proof fn rank_injective(a: Self, b: Self) {
    }

    fn less(&self, other: &Self) -> (r: bool) {
        *self < *other
    }

    fn duplicate(&self) -> (r: Self) {
        *self
    }
}

impl HeapOrd for usize {
    open spec fn rank(&self) -> int {
        *self as int
    }

    proof fn rank_injective(a: Self, b: Self) {
    }

    fn less(&self, other: &Self) -> (r: bool) {
        *self < *other
    }

    fn duplicate(&self) -> (r: Self) {
        *self
    }
}

} // verus!
