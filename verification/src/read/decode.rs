//! Which source each type of item is decoded from.

use crate::float::{Float32, Float64};
use crate::io::deserialize::Fixed;
use crate::nonzero::{Integer, NonZero};
use crate::read::decoder::{Bits, Decoder, OptBitVec, OptInSitu, Sequence};
use crate::read::item::Item;
use vstd::prelude::*;

verus! {

/// An item that can be decoded from one column.
pub trait Decode<'d>: Item {
    /// The source that items are decoded from.
    type Src: Decoder<'d, Self>;
}


impl<'d> Decode<'d> for u8 {
    type Src = &'d [u8];
}

impl<'d> Decode<'d> for u16 {
    type Src = &'d [u8];
}

impl<'d> Decode<'d> for u32 {
    type Src = &'d [u8];
}

impl<'d> Decode<'d> for u64 {
    type Src = &'d [u8];
}

impl<'d> Decode<'d> for u128 {
    type Src = &'d [u8];
}

impl<'d> Decode<'d> for i8 {
    type Src = &'d [u8];
}

impl<'d> Decode<'d> for i16 {
    type Src = &'d [u8];
}

impl<'d> Decode<'d> for i32 {
    type Src = &'d [u8];
}

impl<'d> Decode<'d> for i64 {
    type Src = &'d [u8];
}

impl<'d> Decode<'d> for i128 {
    type Src = &'d [u8];
}

impl<'d> Decode<'d> for Float32 {
    type Src = &'d [u8];
}

impl<'d> Decode<'d> for Float64 {
    type Src = &'d [u8];
}

impl<'d> Decode<'d> for char {
    type Src = &'d [u8];
}

impl<'d, T: Fixed + Integer> Decode<'d> for NonZero<T> {
    type Src = &'d [u8];
}

impl<'d> Decode<'d> for bool {
    type Src = Bits<'d>;
}

impl<'d> Decode<'d> for Option<u8> {
    type Src = OptBitVec<'d, u8>;
}

impl<'d> Decode<'d> for Option<u16> {
    type Src = OptBitVec<'d, u16>;
}

impl<'d> Decode<'d> for Option<u32> {
    type Src = OptBitVec<'d, u32>;
}

impl<'d> Decode<'d> for Option<u64> {
    type Src = OptBitVec<'d, u64>;
}

impl<'d> Decode<'d> for Option<u128> {
    type Src = OptBitVec<'d, u128>;
}

impl<'d> Decode<'d> for Option<i8> {
    type Src = OptBitVec<'d, i8>;
}

impl<'d> Decode<'d> for Option<i16> {
    type Src = OptBitVec<'d, i16>;
}

impl<'d> Decode<'d> for Option<i32> {
    type Src = OptBitVec<'d, i32>;
}

impl<'d> Decode<'d> for Option<i64> {
    type Src = OptBitVec<'d, i64>;
}

impl<'d> Decode<'d> for Option<i128> {
    type Src = OptBitVec<'d, i128>;
}

impl<'d> Decode<'d> for Option<Float32> {
    type Src = OptBitVec<'d, Float32>;
}

impl<'d> Decode<'d> for Option<Float64> {
    type Src = OptBitVec<'d, Float64>;
}

impl<'d> Decode<'d> for Option<bool> {
    type Src = OptBitVec<'d, bool>;
}

impl<'d> Decode<'d> for Option<char> {
    type Src = OptInSitu<'d>;
}

impl<'d, T: Fixed + Integer> Decode<'d> for Option<NonZero<T>> {
    type Src = OptInSitu<'d>;
}

impl<'d> Decode<'d> for String {
    type Src = Sequence<'d>;
}

impl<'d> Decode<'d> for Option<String> {
    type Src = Sequence<'d>;
}

impl<'d> Decode<'d> for &'d str {
    type Src = Sequence<'d>;
}

impl<'d, I: Decode<'d>> Decode<'d> for Vec<I> {
    type Src = Sequence<'d>;
}

impl<'d, I: Decode<'d>> Decode<'d> for Option<Vec<I>> {
    type Src = Sequence<'d>;
}

} // verus!
