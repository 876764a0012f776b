//! Items: the values that columns hold.

use crate::float::{Float32, Float64};
use crate::nonzero::{Integer, NonZero};
use vstd::prelude::*;

verus! {

/// A value that a column can hold, and that can be repeated.
pub trait Item: DeepView + Sized {
    /// Another item that is the same value.
    fn duplicate(&self) -> (copy: Self)
        ensures
            copy.deep_view() == self.deep_view(),
    ;
}

impl Item for u8 {
    fn duplicate(&self) -> (copy: Self) {
        *self
    }
}

impl Item for u16 {
    fn duplicate(&self) -> (copy: Self) {
        *self
    }
}

impl Item for u32 {
    fn duplicate(&self) -> (copy: Self) {
        *self
    }
}

impl Item for u64 {
    fn duplicate(&self) -> (copy: Self) {
        *self
    }
}

impl Item for u128 {
    fn duplicate(&self) -> (copy: Self) {
        *self
    }
}

impl Item for i8 {
    fn duplicate(&self) -> (copy: Self) {
        *self
    }
}

impl Item for i16 {
    fn duplicate(&self) -> (copy: Self) {
        *self
    }
}

impl Item for i32 {
    fn duplicate(&self) -> (copy: Self) {
        *self
    }
}

impl Item for i64 {
    fn duplicate(&self) -> (copy: Self) {
        *self
    }
}

impl Item for i128 {
    fn duplicate(&self) -> (copy: Self) {
        *self
    }
}

impl Item for char {
    fn duplicate(&self) -> (copy: Self) {
        *self
    }
}

impl Item for bool {
    fn duplicate(&self) -> (copy: Self) {
        *self
    }
}

impl Item for Float32 {
    fn duplicate(&self) -> (copy: Self) {
        *self
    }
}

impl Item for Float64 {
    fn duplicate(&self) -> (copy: Self) {
        *self
    }
}

impl<T: Integer> Item for NonZero<T> {
    fn duplicate(&self) -> (copy: Self) {
        *self
    }
}

impl Item for String {
    fn duplicate(&self) -> (copy: Self) {
        self.clone()
    }
}

impl<'d> Item for &'d str {
    fn duplicate(&self) -> (copy: Self) {
        *self
    }
}

impl<I: Item> Item for Option<I> {
    fn duplicate(&self) -> (copy: Self) {
        match self {
            Some(item) => Some(item.duplicate()),
            None => None,
        }
    }
}

impl<I: Item> Item for Vec<I> {
    fn duplicate(&self) -> (copy: Self) {
        let mut copy: Vec<I> = Vec::new();
        let mut i: usize = 0;
        while i < self.len()
            invariant
                i <= self@.len(),
                copy@.len() == i,
                forall|j: int|
                    0 <= j < i ==> (#[trigger] copy@[j]).deep_view() == self@[j].deep_view(),
            decreases self@.len() - i,
        {
            copy.push(self[i].duplicate());
            i += 1;
        }
        assert(copy.deep_view() =~= self.deep_view());
        copy
    }
}

} // verus!
