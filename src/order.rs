//! The total order on the items that the trees hold.
use vstd::prelude::*;

verus! {

/// Items that can be kept in an ordered tree.  Each item has an integer
/// rank; items are compared by rank alone, and two items of equal rank
/// count as the same entry.
pub trait Ordered: Sized {
    /// The position of the item in the total order.
    spec fn rank(&self) -> int;

    /// Whether `self` comes strictly before `other`.
    fn is_less(&self, other: &Self) -> (r: bool)
        ensures
            r == (self.rank() < other.rank()),
    ;

    /// Whether `self` and `other` hold the same place in the order.
    fn is_same(&self, other: &Self) -> (r: bool)
        ensures
            r == (self.rank() == other.rank()),
    ;
}

impl Ordered for i8 {
    open spec fn rank(&self) -> int {
        *self as int
    }

    fn is_less(&self, other: &Self) -> (r: bool) {
        *self < *other
    }

    fn is_same(&self, other: &Self) -> (r: bool) {
        *self == *other
    }
}

impl Ordered for i16 {
    open spec fn rank(&self) -> int {
        *self as int
    }

    fn is_less(&self, other: &Self) -> (r: bool) {
        *self < *other
    }

    fn is_same(&self, other: &Self) -> (r: bool) {
        *self == *other
    }
}

impl Ordered for isize {
    open spec fn rank(&self) -> int {
        *self as int
    }

    fn is_less(&self, other: &Self) -> (r: bool) {
        *self < *other
    }

    fn is_same(&self, other: &Self) -> (r: bool) {
        *self == *other
    }
}

impl Ordered for u8 {
    open spec fn rank(&self) -> int {
        *self as int
    }

    fn is_less(&self, other: &Self) -> (r: bool) {
        *self < *other
    }

    fn is_same(&self, other: &Self) -> (r: bool) {
        *self == *other
    }
}

impl Ordered for u16 {
    open spec fn rank(&self) -> int {
        *self as int
    }

    fn is_less(&self, other: &Self) -> (r: bool) {
        *self < *other
    }

    fn is_same(&self, other: &Self) -> (r: bool) {
        *self == *other
    }
}

impl Ordered for i32 {
    open spec fn rank(&self) -> int {
        *self as int
    }

    fn is_less(&self, other: &Self) -> (r: bool) {
        *self < *other
    }

    fn is_same(&self, other: &Self) -> (r: bool) {
        *self == *other
    }
}

impl Ordered for i64 {
    open spec fn rank(&self) -> int {
        *self as int
    }

    fn is_less(&self, other: &Self) -> (r: bool) {
        *self < *other
    }

    fn is_same(&self, other: &Self) -> (r: bool) {
        *self == *other
    }
}

impl Ordered for u32 {
    open spec fn rank(&self) -> int {
        *self as int
    }

    fn is_less(&self, other: &Self) -> (r: bool) {
        *self < *other
    }

    fn is_same(&self, other: &Self) -> (r: bool) {
        *self == *other
    }
}

impl Ordered for u64 {
    open spec fn rank(&self) -> int {
        *self as int
    }

    fn is_less(&self, other: &Self) -> (r: bool) {
        *self < *other
    }

    fn is_same(&self, other: &Self) -> (r: bool) {
        *self == *other
    }
}

impl Ordered for usize {
    open spec fn rank(&self) -> int {
        *self as int
    }

    fn is_less(&self, other: &Self) -> (r: bool) {
        *self < *other
    }

    fn is_same(&self, other: &Self) -> (r: bool) {
        *self == *other
    }
}

} // verus!
