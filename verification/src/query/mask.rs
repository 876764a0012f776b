//! Positional masks over the buffers of a column.
//!
//! Bit `n` of a mask says whether the buffer of the `n`th data segment may hold part of the result.

use crate::manifest::column::MOST_BUFFERS;
use bitvec::boxed::BitBox;
use bitvec::vec::BitVec;
use vstd::prelude::*;

verus! {

/// A mask, held in a [`BitBox`].
#[verifier::external_body]
pub struct Mask {
    bits: BitBox,
}

/// The bits of a mask.
pub uninterp spec fn bits(mask: &Mask) -> Seq<bool>;

impl View for Mask {
    type V = Seq<bool>;

    open spec fn view(&self) -> Seq<bool> {
        bits(self)
    }
}

/// [`BitVec::repeat`] makes `n` bits of one value. More than the largest number of bits that a
/// bit-vector can count is a panic there.
#[verifier::external_body]
fn repeat(value: bool, n: usize) -> (mask: Mask)
    requires
        n <= MOST_BUFFERS,
    ensures
        bits(&mask) == Seq::new(n as nat, |i: int| value),
{
    Mask { bits: BitVec::repeat(value, n).into_boxed_bitslice() }
}

/// [`bitvec::slice::BitSlice::len`] is the number of bits.
#[verifier::external_body]
fn length(mask: &Mask) -> (n: usize)
    ensures
        n == bits(mask).len(),
{
    mask.bits.len()
}

/// Indexing a [`bitvec::slice::BitSlice`] reads one bit. An index past the end is a panic there.
#[verifier::external_body]
fn bit(mask: &Mask, i: usize) -> (value: bool)
    requires
        i < bits(mask).len(),
    ensures
        value == bits(mask)[i as int],
{
    mask.bits[i]
}

/// [`bitvec::slice::BitSlice::set`] writes one bit. An index past the end is a panic there.
#[verifier::external_body]
fn write(mask: &mut Mask, i: usize, value: bool)
    requires
        i < bits(old(mask)).len(),
    ensures
        bits(final(mask)) == bits(old(mask)).update(i as int, value),
{
    mask.bits.set(i, value)
}

/// [`bitvec::slice::BitSlice::split_at_mut`] and [`bitvec::slice::BitSlice::fill`] write every bit
/// from a place on. A place past the end is a panic there.
#[verifier::external_body]
fn fill_from(mask: &mut Mask, i: usize, value: bool)
    requires
        i <= bits(old(mask)).len(),
    ensures
        bits(final(mask)) == Seq::new(
            bits(old(mask)).len(),
            |j: int|
                if j < i {
                    bits(old(mask))[j]
                } else {
                    value
                },
        ),
{
    mask.bits.split_at_mut(i).1.fill(value)
}

/// Cloning a [`BitBox`] copies every bit.
#[verifier::external_body]
fn copy(mask: &Mask) -> (copied: Mask)
    ensures
        bits(&copied) == bits(mask),
{
    Mask { bits: mask.bits.clone() }
}

/// `^=` on a [`bitvec::slice::BitSlice`] writes the exclusive disjunction of each pair of bits. The
/// contract speaks of masks of one length only.
#[verifier::external_body]
fn exclusive_or(mask: &mut Mask, other: &Mask)
    requires
        bits(old(mask)).len() == bits(other).len(),
    ensures
        bits(final(mask)) == Seq::new(
            bits(old(mask)).len(),
            |i: int| bits(old(mask))[i] != bits(other)[i],
        ),
{
    *mask.bits ^= &*other.bits
}

/// `|=` on a [`bitvec::slice::BitSlice`] writes the disjunction of each pair of bits. The contract
/// speaks of masks of one length only.
#[verifier::external_body]
fn inclusive_or(mask: &mut Mask, other: &Mask)
    requires
        bits(old(mask)).len() == bits(other).len(),
    ensures
        bits(final(mask)) == Seq::new(
            bits(old(mask)).len(),
            |i: int| bits(old(mask))[i] || bits(other)[i],
        ),
{
    *mask.bits |= &*other.bits
}

/// The mask that includes each of `n` buffers.
pub open spec fn every(n: nat) -> Seq<bool> {
    Seq::new(n, |i: int| true)
}

/// Whether `mask` includes nothing that `other` does not.
pub open spec fn within_mask(mask: Seq<bool>, other: Seq<bool>) -> bool {
    mask.len() == other.len() && forall|i: int|
        0 <= i < mask.len() && #[trigger] mask[i] ==> other[i]
}

impl Mask {
    /// The mask that includes each of `n` buffers.
    pub fn full(n: usize) -> (mask: Mask)
        requires
            n <= MOST_BUFFERS,
        ensures
            mask@ == every(n as nat),
    {
        repeat(true, n)
    }

    /// The number of bits.
    pub fn len(&self) -> (n: usize)
        ensures
            n == self@.len(),
    {
        length(self)
    }

    /// Whether buffer `i` is included. One that the mask does not reach is not.
    pub fn get(&self, i: usize) -> (included: bool)
        ensures
            included == (i < self@.len() && self@[i as int]),
    {
        i < length(self) && bit(self, i)
    }

    /// Excludes buffer `i`.
    pub fn exclude(&mut self, i: usize)
        requires
            i < old(self)@.len(),
        ensures
            final(self)@ == old(self)@.update(i as int, false),
    {
        write(self, i, false)
    }

    /// Excludes every buffer from place `i` on.
    pub fn exclude_from(&mut self, i: usize)
        requires
            i <= old(self)@.len(),
        ensures
            final(self)@ == Seq::new(
                old(self)@.len(),
                |j: int|
                    if j < i {
                        old(self)@[j]
                    } else {
                        false
                    },
            ),
    {
        fill_from(self, i, false)
    }

    /// Another mask of the same bits.
    pub fn duplicate(&self) -> (copied: Mask)
        ensures
            copied@ == self@,
    {
        copy(self)
    }

    /// Keeps what exactly one of two masks includes.
    pub fn differ(&mut self, other: &Mask)
        requires
            old(self)@.len() == other@.len(),
        ensures
            final(self)@ == Seq::new(old(self)@.len(), |i: int| old(self)@[i] != other@[i]),
    {
        exclusive_or(self, other)
    }

    /// Keeps what at least one of two masks includes.
    pub fn unite(&mut self, other: &Mask)
        requires
            old(self)@.len() == other@.len(),
        ensures
            final(self)@ == Seq::new(old(self)@.len(), |i: int| old(self)@[i] || other@[i]),
    {
        inclusive_or(self, other)
    }
}

} // verus!
