//! Data models and the lenses that read parts of them.
use vstd::prelude::*;

verus! {

/// Implemented by the types that take part in the view-model system.
pub trait Model {
    /// Describes an incremental change to this data model.
    type Change;
}

/// Represents a change to a collection.
#[derive(Copy, Clone, Debug, PartialEq, Eq, Structural)]
pub enum CollectionChange {
    Insert { index: usize },
    Remove { index: usize },
    Move { from: usize, to: usize },
}

impl<T: Model> Model for Vec<T> {
    type Change = CollectionChange;
}

impl Model for bool {
    type Change = bool;
}

impl Model for u8 {
    type Change = u8;
}

impl Model for u16 {
    type Change = u16;
}

impl Model for u32 {
    type Change = u32;
}

impl Model for u64 {
    type Change = u64;
}

impl Model for i8 {
    type Change = i8;
}

impl Model for i16 {
    type Change = i16;
}

impl Model for i32 {
    type Change = i32;
}

impl Model for i64 {
    type Change = i64;
}

impl Model for char {
    type Change = char;
}

impl Model for String {
    type Change = String;
}

/// A lens that always gives the same value, whatever the data.
#[derive(Copy, Clone, Debug)]
pub struct ValueLens<U: Clone>(U);

impl<U: Clone> View for ValueLens<U> {
    type V = U;

    closed spec fn view(&self) -> U {
        self.0
    }
}

impl<U: Clone> ValueLens<U> {
    /// The lens that gives `value`.
    pub fn new(value: U) -> (r: ValueLens<U>)
        ensures
            r@ == value,
    {
        ValueLens(value)
    }

    /// The value that the lens gives.
    pub fn value(&self) -> (r: &U)
        ensures
            *r == self@,
    {
        &self.0
    }

    /// A constant lens is affected by no change.
    pub fn affected<T: Model>(&self, change: &T::Change) -> (r: bool)
        ensures
            !r,
    {
        false
    }
}

} // verus!
