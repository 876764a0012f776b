//! The bytes that values and regions are written as.

use crate::float::{Float32, Float64};
use crate::io::deserialize::{scalar, Fixed, NO_CHAR};
use crate::io::error::Error;
use crate::io::region::{padding, sized};
use crate::nonzero::{Integer, NonZero};
use crate::num::{
    le_bytes, le_value, lemma_le_bytes_len, lemma_le_round_trip,
    lemma_le_value_bound, lemma_span_is_pow, lemma_span_values, span,
};
use vstd::arithmetic::power::pow;
use vstd::prelude::*;

verus! {

broadcast use crate::nonzero::group_nonzero;

// ---------------------------------------------------------------- values of fixed width

/// A value of fixed width and the bytes that it is written as.
pub trait Written: Fixed {
    /// Whether `self` is a value that there can be. Every value of a type without an invariant is.
    open spec fn proper(self) -> bool {
        true
    }

    /// The bytes of `self`.
    spec fn written(self) -> Seq<u8>;

    /// The bytes of a value spell the value.
    proof fn spells(self)
        requires
            self.proper(),
        ensures
            Self::width() > 0,
            self.written().len() == Self::width(),
            Self::spelled(self.written()) == Ok::<Self, Error>(self),
    ;
}

/// The two's complement of `item` over a number of bytes.
pub open spec fn complement(item: int, bytes: nat) -> nat {
    if item < 0 {
        (item + span(bytes)) as nat
    } else {
        item as nat
    }
}

/// The bytes of a value that fits their number have that number and spell the value.
proof fn lemma_bytes(value: nat, width: nat)
    requires
        value < span(width),
    ensures
        le_bytes(value, width).len() == width,
        le_value(le_bytes(value, width)) == value,
{
    lemma_le_bytes_len(value, width);
    lemma_le_round_trip(value, width);
}

impl Written for u8 {
    open spec fn written(self) -> Seq<u8> {
        le_bytes(self as nat, 1)
    }

    proof fn spells(self) {
        lemma_span_values();
        lemma_bytes(self as nat, 1);
    }
}

impl Written for u16 {
    open spec fn written(self) -> Seq<u8> {
        le_bytes(self as nat, 2)
    }

    proof fn spells(self) {
        lemma_span_values();
        lemma_bytes(self as nat, 2);
    }
}

impl Written for u32 {
    open spec fn written(self) -> Seq<u8> {
        le_bytes(self as nat, 4)
    }

    proof fn spells(self) {
        lemma_span_values();
        lemma_bytes(self as nat, 4);
    }
}

impl Written for u64 {
    open spec fn written(self) -> Seq<u8> {
        le_bytes(self as nat, 8)
    }

    proof fn spells(self) {
        lemma_span_values();
        lemma_bytes(self as nat, 8);
    }
}

impl Written for u128 {
    open spec fn written(self) -> Seq<u8> {
        le_bytes(self as nat, 16)
    }

    proof fn spells(self) {
        lemma_span_values();
        lemma_bytes(self as nat, 16);
    }
}

impl Written for i8 {
    open spec fn written(self) -> Seq<u8> {
        le_bytes(complement(self as int, 1), 1)
    }

    proof fn spells(self) {
        lemma_span_values();
        lemma_bytes(complement(self as int, 1), 1);
    }
}

impl Written for i16 {
    open spec fn written(self) -> Seq<u8> {
        le_bytes(complement(self as int, 2), 2)
    }

    proof fn spells(self) {
        lemma_span_values();
        lemma_bytes(complement(self as int, 2), 2);
    }
}

impl Written for i32 {
    open spec fn written(self) -> Seq<u8> {
        le_bytes(complement(self as int, 4), 4)
    }

    proof fn spells(self) {
        lemma_span_values();
        lemma_bytes(complement(self as int, 4), 4);
    }
}

impl Written for i64 {
    open spec fn written(self) -> Seq<u8> {
        le_bytes(complement(self as int, 8), 8)
    }

    proof fn spells(self) {
        lemma_span_values();
        lemma_bytes(complement(self as int, 8), 8);
    }
}

impl Written for i128 {
    open spec fn written(self) -> Seq<u8> {
        le_bytes(complement(self as int, 16), 16)
    }

    proof fn spells(self) {
        lemma_span_values();
        lemma_bytes(complement(self as int, 16), 16);
    }
}

impl Written for Float32 {
    /// The bit pattern.
    open spec fn written(self) -> Seq<u8> {
        le_bytes(self.bits as nat, 4)
    }

    proof fn spells(self) {
        lemma_span_values();
        lemma_bytes(self.bits as nat, 4);
    }
}

impl Written for Float64 {
    /// The bit pattern.
    open spec fn written(self) -> Seq<u8> {
        le_bytes(self.bits as nat, 8)
    }

    proof fn spells(self) {
        lemma_span_values();
        lemma_bytes(self.bits as nat, 8);
    }
}

impl Written for char {
    /// The scalar value.
    open spec fn written(self) -> Seq<u8> {
        le_bytes(self as u32 as nat, 4)
    }

    proof fn spells(self) {
        lemma_span_values();
        vstd::utf8::char_is_scalar(self);
        vstd::utf8::char_u32_cast(self, self as u32);
        assert((self as u32 as nat) as char == self as u32 as char);
        assert(scalar(self as u32 as nat));
        lemma_bytes(self as u32 as nat, 4);
    }
}

impl Written for Option<char> {
    /// The scalar value, or the code that stands for an absent character.
    open spec fn written(self) -> Seq<u8> {
        match self {
            Some(c) => c.written(),
            None => le_bytes(NO_CHAR as nat, 4),
        }
    }

    proof fn spells(self) {
        lemma_span_values();
        match self {
            Some(c) => {
                vstd::utf8::char_is_scalar(c);
                c.spells();
                lemma_bytes(c as u32 as nat, 4);
                assert(scalar(c as u32 as nat));
            },
            None => lemma_bytes(NO_CHAR as nat, 4),
        }
    }
}

impl<T: Written + Integer> Written for NonZero<T> {
    /// Zero is held by no value.
    open spec fn proper(self) -> bool {
        self.held().value() != 0 && self.held().proper()
    }

    /// The integer held.
    open spec fn written(self) -> Seq<u8> {
        self.held().written()
    }

    proof fn spells(self) {
        self.held().spells();
    }
}

/// `n` zero bytes.
pub open spec fn zeros(n: nat) -> Seq<u8> {
    Seq::new(n, |i: int| 0u8)
}

/// Zero bytes spell zero.
proof fn lemma_zeros(n: nat)
    ensures
        le_value(zeros(n)) == 0,
    decreases n,
{
    if n > 0 {
        lemma_zeros((n - 1) as nat);
        assert(zeros(n).skip(1) =~= zeros((n - 1) as nat));
    }
}

/// An integer whose zero is written as zero bytes.
pub trait Zeroed: Written + Integer {
    /// Zero bytes spell zero.
    proof fn zero_spells()
        ensures
            Self::width() > 0,
            Self::spelled(zeros(Self::width())) matches Ok(zero) && zero.value() == 0,
    ;
}

impl Zeroed for u8 {
    proof fn zero_spells() {
        lemma_span_values();
        lemma_zeros(Self::width());
    }
}

impl Zeroed for u16 {
    proof fn zero_spells() {
        lemma_span_values();
        lemma_zeros(Self::width());
    }
}

impl Zeroed for u32 {
    proof fn zero_spells() {
        lemma_span_values();
        lemma_zeros(Self::width());
    }
}

impl Zeroed for u64 {
    proof fn zero_spells() {
        lemma_span_values();
        lemma_zeros(Self::width());
    }
}

impl Zeroed for u128 {
    proof fn zero_spells() {
        lemma_span_values();
        lemma_zeros(Self::width());
    }
}

impl Zeroed for i8 {
    proof fn zero_spells() {
        lemma_span_values();
        lemma_zeros(Self::width());
    }
}

impl Zeroed for i16 {
    proof fn zero_spells() {
        lemma_span_values();
        lemma_zeros(Self::width());
    }
}

impl Zeroed for i32 {
    proof fn zero_spells() {
        lemma_span_values();
        lemma_zeros(Self::width());
    }
}

impl Zeroed for i64 {
    proof fn zero_spells() {
        lemma_span_values();
        lemma_zeros(Self::width());
    }
}

impl Zeroed for i128 {
    proof fn zero_spells() {
        lemma_span_values();
        lemma_zeros(Self::width());
    }
}

impl<T: Zeroed> Written for Option<NonZero<T>> {
    open spec fn proper(self) -> bool {
        self matches Some(held) ==> held.proper()
    }

    /// The integer held, or zero bytes where there is none.
    open spec fn written(self) -> Seq<u8> {
        match self {
            Some(held) => held.written(),
            None => zeros(T::width()),
        }
    }

    proof fn spells(self) {
        match self {
            Some(held) => held.held().spells(),
            None => T::zero_spells(),
        }
    }
}

/// The values of `items`, each written after the one before.
pub open spec fn written_all<I: Written>(items: Seq<I>) -> Seq<u8>
    decreases items.len(),
{
    if items.len() == 0 {
        Seq::empty()
    } else {
        items[0].written() + written_all(items.skip(1))
    }
}

// ---------------------------------------------------------------- regions

/// A length-prefixed region that holds `payload`, padded to a multiple of eight bytes.
pub open spec fn prefixed(payload: Seq<u8>) -> Seq<u8> {
    le_bytes(payload.len(), 8) + payload + zeros(
        padding(payload.len() as int) as nat,
    )
}

/// Taking a region gives the payload that it was written with, and leaves what follows.
pub proof fn law_regions_read_back(payload: Seq<u8>, rest: Seq<u8>)
    requires
        payload.len() <= usize::MAX,
    ensures
        sized(prefixed(payload) + rest) == (Ok::<Seq<u8>, Error>(payload), rest),
{
    let n = payload.len();
    lemma_span_values();
    lemma_bytes(n, 8);
    let src = prefixed(payload) + rest;
    assert(src.take(8) =~= le_bytes(n, 8));
    let after = src.skip(8);
    assert(after.take(n as int) =~= payload);
    assert(after.skip(n + padding(n as int)) =~= rest);
}

// ---------------------------------------------------------------- what bytes spell

/// Bytes spell the unsigned integer that they are, the lowest byte first.
pub proof fn law_bytes_spell_unsigned_integers(bytes: Seq<u8>)
    ensures
        bytes.len() == 1 ==> (<u8 as Fixed>::spelled(bytes) matches Ok(v) && v == le_value(bytes)),
        bytes.len() == 2 ==> (<u16 as Fixed>::spelled(bytes) matches Ok(v) && v == le_value(bytes)),
        bytes.len() == 4 ==> (<u32 as Fixed>::spelled(bytes) matches Ok(v) && v == le_value(bytes)),
        bytes.len() == 8 ==> (<u64 as Fixed>::spelled(bytes) matches Ok(v) && v == le_value(bytes)),
        bytes.len() == 16 ==> (<u128 as Fixed>::spelled(bytes) matches Ok(v) && v == le_value(bytes)),
{
    lemma_le_value_bound(bytes);
    lemma_span_values();
}

/// Bytes spell the signed integer of their two's complement, the lowest byte first.
pub proof fn law_bytes_spell_signed_integers(bytes: Seq<u8>)
    ensures
        bytes.len() == 1 ==> <i8 as Fixed>::spelled(bytes) == Ok::<i8, Error>(
            (if 2 * le_value(bytes) < pow(256, 1) {
                le_value(bytes) as int
            } else {
                le_value(bytes) - pow(256, 1)
            }) as i8,
        ),
        bytes.len() == 2 ==> <i16 as Fixed>::spelled(bytes) == Ok::<i16, Error>(
            (if 2 * le_value(bytes) < pow(256, 2) {
                le_value(bytes) as int
            } else {
                le_value(bytes) - pow(256, 2)
            }) as i16,
        ),
        bytes.len() == 4 ==> <i32 as Fixed>::spelled(bytes) == Ok::<i32, Error>(
            (if 2 * le_value(bytes) < pow(256, 4) {
                le_value(bytes) as int
            } else {
                le_value(bytes) - pow(256, 4)
            }) as i32,
        ),
        bytes.len() == 8 ==> <i64 as Fixed>::spelled(bytes) == Ok::<i64, Error>(
            (if 2 * le_value(bytes) < pow(256, 8) {
                le_value(bytes) as int
            } else {
                le_value(bytes) - pow(256, 8)
            }) as i64,
        ),
        bytes.len() == 16 ==> <i128 as Fixed>::spelled(bytes) == Ok::<i128, Error>(
            (if 2 * le_value(bytes) < pow(256, 16) {
                le_value(bytes) as int
            } else {
                le_value(bytes) - pow(256, 16)
            }) as i128,
        ),
{
    lemma_le_value_bound(bytes);
    lemma_span_values();
    lemma_span_is_pow(bytes.len());
}

/// Bytes spell the pattern of a floating point number, and the scalar value of a character.
pub proof fn law_bytes_spell_patterns_and_characters(bytes: Seq<u8>)
    ensures
        bytes.len() == 4 ==> (<Float32 as Fixed>::spelled(bytes) matches Ok(v) && v.bits == le_value(
            bytes,
        )),
        bytes.len() == 8 ==> (<Float64 as Fixed>::spelled(bytes) matches Ok(v) && v.bits == le_value(
            bytes,
        )),
        bytes.len() == 4 ==> match <char as Fixed>::spelled(bytes) {
            Ok(c) => c == le_value(bytes) as char && (le_value(bytes) < 0xD800 || 0xE000 <= le_value(
                bytes,
            ) < 0x11_0000),
            Err(e) => e is Utf8 && (0xD800 <= le_value(bytes) < 0xE000 || le_value(bytes) >= 0x11_0000),
        },
        bytes.len() == 4 && le_value(bytes) == 0x11_0000 ==> <Option<char> as Fixed>::spelled(bytes)
            == Ok::<Option<char>, Error>(None),
{
    lemma_le_value_bound(bytes);
    lemma_span_values();
}

} // verus!
