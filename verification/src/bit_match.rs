//! Equality of items by their bits.

use crate::float::{Float32, Float64};
use crate::nonzero::{Integer, NonZero};
use crate::order::{lemma_text_total, text_at_most};
use vstd::prelude::*;

verus! {

/// Items that can be compared bit by bit.
pub trait BitMatch: DeepView + Sized {
    /// Whether `self` and `other` are the same value.
    fn same(&self, other: &Self) -> (same: bool)
        ensures
            same == (self.deep_view() == other.deep_view()),
    ;
}

impl BitMatch for u8 {
    fn same(&self, other: &Self) -> (same: bool) {
        *self == *other
    }
}

impl BitMatch for u16 {
    fn same(&self, other: &Self) -> (same: bool) {
        *self == *other
    }
}

impl BitMatch for u32 {
    fn same(&self, other: &Self) -> (same: bool) {
        *self == *other
    }
}

impl BitMatch for u64 {
    fn same(&self, other: &Self) -> (same: bool) {
        *self == *other
    }
}

impl BitMatch for u128 {
    fn same(&self, other: &Self) -> (same: bool) {
        *self == *other
    }
}

impl BitMatch for i8 {
    fn same(&self, other: &Self) -> (same: bool) {
        *self == *other
    }
}

impl BitMatch for i16 {
    fn same(&self, other: &Self) -> (same: bool) {
        *self == *other
    }
}

impl BitMatch for i32 {
    fn same(&self, other: &Self) -> (same: bool) {
        *self == *other
    }
}

impl BitMatch for i64 {
    fn same(&self, other: &Self) -> (same: bool) {
        *self == *other
    }
}

impl BitMatch for i128 {
    fn same(&self, other: &Self) -> (same: bool) {
        *self == *other
    }
}

impl BitMatch for char {
    fn same(&self, other: &Self) -> (same: bool) {
        *self == *other
    }
}

impl BitMatch for bool {
    fn same(&self, other: &Self) -> (same: bool) {
        *self == *other
    }
}

impl BitMatch for Float32 {
    fn same(&self, other: &Self) -> (same: bool) {
        self.bits == other.bits
    }
}

impl BitMatch for Float64 {
    fn same(&self, other: &Self) -> (same: bool) {
        self.bits == other.bits
    }
}

impl<T: Integer + BitMatch> BitMatch for NonZero<T> {
    fn same(&self, other: &Self) -> (same: bool) {
        let (a, b) = (self.get(), other.get());
        proof {
            broadcast use crate::nonzero::group_nonzero;

            a.whole();
            b.whole();
        }
        a.same(&b)
    }
}

impl BitMatch for String {
    fn same(&self, other: &Self) -> (same: bool) {
        *self == *other
    }
}

impl<'d> BitMatch for &'d str {
    fn same(&self, other: &Self) -> (same: bool) {
        proof {
            lemma_text_total(self@, other@);
        }
        text_at_most(self, other) && text_at_most(other, self)
    }
}

} // verus!
