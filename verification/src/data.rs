//! Values that can be stored in the cache and compared cheaply.
use vstd::prelude::*;

verus! {

/// A cloneable value with a notion of sameness.
///
/// `same` is what the cache uses to decide whether a stored value has changed.
/// It need not be structural equality: an implementation may regard two values
/// as the same whenever recomputing with one instead of the other is pointless.
/// Unless an implementation says otherwise, being the same means being equal.
pub trait Data: Clone + Sized {
    /// What `same` decides.
    open spec fn same_spec(&self, other: &Self) -> bool {
        self == other
    }

    /// Tells whether `self` and `other` are the same for caching purposes.
    fn same(&self, other: &Self) -> (r: bool)
        ensures
            r == self.same_spec(other),
    ;
}

impl Data for bool {
    fn same(&self, other: &Self) -> (r: bool) {
        *self == *other
    }
}

impl Data for u8 {
    fn same(&self, other: &Self) -> (r: bool) {
        *self == *other
    }
}

impl Data for u16 {
    fn same(&self, other: &Self) -> (r: bool) {
        *self == *other
    }
}

impl Data for u32 {
    fn same(&self, other: &Self) -> (r: bool) {
        *self == *other
    }
}

impl Data for u64 {
    fn same(&self, other: &Self) -> (r: bool) {
        *self == *other
    }
}

impl Data for usize {
    fn same(&self, other: &Self) -> (r: bool) {
        *self == *other
    }
}

impl Data for i8 {
    fn same(&self, other: &Self) -> (r: bool) {
        *self == *other
    }
}

impl Data for i16 {
    fn same(&self, other: &Self) -> (r: bool) {
        *self == *other
    }
}

impl Data for i32 {
    fn same(&self, other: &Self) -> (r: bool) {
        *self == *other
    }
}

impl Data for i64 {
    fn same(&self, other: &Self) -> (r: bool) {
        *self == *other
    }
}

impl Data for isize {
    fn same(&self, other: &Self) -> (r: bool) {
        *self == *other
    }
}

impl Data for char {
    fn same(&self, other: &Self) -> (r: bool) {
        *self == *other
    }
}

impl Data for String {
    open spec fn same_spec(&self, other: &Self) -> bool {
        self@ == other@
    }

    fn same(&self, other: &Self) -> (r: bool) {
        *self == *other
    }
}

} // verus!
