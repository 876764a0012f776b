//! Non-zero integers and their little-endian encoding.

use crate::num::{
    le_bytes, le_value, lemma_le_bytes_len, lemma_le_round_trip, lemma_le_value_bound,
    lemma_span_values, read_le, span, write_le,
};
use crate::sealed::Sealed;
use vstd::prelude::*;

verus! {

/// An integer type that has a zero.
pub trait Integer: Copy + DeepView<V = Self> {
    /// The mathematical integer that `self` holds.
    spec fn value(self) -> int;

    /// Whether `self` is zero.
    fn is_zero(&self) -> (zero: bool)
        ensures
            zero == (self.value() == 0),
    ;

    /// The deep view of an integer is the integer.
    proof fn whole(self)
        ensures
            self.deep_view() == self,
    ;
}

/// An integer that is known not to be zero, so that the all-zero pattern is free to mean absence.
#[derive(Debug, Copy, PartialEq, Eq, PartialOrd, Ord, Hash)]
pub struct NonZero<T: Integer> {
    inner: T,
}

impl<T: Integer> NonZero<T> {
    #[verifier::type_invariant]
    spec fn valid(self) -> bool {
        self.inner.value() != 0
    }

    /// The integer held.
    pub closed spec fn held(self) -> T {
        self.inner
    }

    /// The value that holds `inner`.
    pub closed spec fn of(inner: T) -> Self {
        NonZero { inner }
    }

    /// Wraps `value`, or gives [`None`] where it is zero.
    pub fn new(value: T) -> (wrapped: Option<Self>)
        ensures
            value.value() == 0 ==> wrapped is None,
            value.value() != 0 ==> wrapped == Some(Self::of(value)),
    {
        if value.is_zero() {
            None
        } else {
            Some(NonZero { inner: value })
        }
    }

    /// The integer held.
    pub fn get(&self) -> (value: T)
        ensures
            value == self.held(),
            value.value() != 0,
    {
        proof {
            use_type_invariant(*self);
        }
        self.inner
    }
}

impl<T: Integer> Clone for NonZero<T> {
    fn clone(&self) -> (copy: Self)
        ensures
            copy == *self,
    {
        *self
    }
}

/// A value is determined by the integer that it holds.
pub broadcast proof fn lemma_held_of<T: Integer>(inner: T)
    ensures
        (#[trigger] NonZero::of(inner)).held() == inner,
{
}

/// A value is determined by the integer that it holds.
pub broadcast proof fn lemma_of_held<T: Integer>(wrapped: NonZero<T>)
    ensures
        NonZero::of(#[trigger] wrapped.held()) == wrapped,
{
}

pub broadcast group group_nonzero {
    lemma_held_of,
    lemma_of_held,
}

impl<T: Integer> DeepView for NonZero<T> {
    type V = NonZero<T>;

    open spec fn deep_view(&self) -> NonZero<T> {
        *self
    }
}

impl Integer for u8 {
    open spec fn value(self) -> int {
        self as int
    }

    fn is_zero(&self) -> (zero: bool) {
        *self == 0
    }

    proof fn whole(self) {
    }
}

impl Integer for u16 {
    open spec fn value(self) -> int {
        self as int
    }

    fn is_zero(&self) -> (zero: bool) {
        *self == 0
    }

    proof fn whole(self) {
    }
}

impl Integer for u32 {
    open spec fn value(self) -> int {
        self as int
    }

    fn is_zero(&self) -> (zero: bool) {
        *self == 0
    }

    proof fn whole(self) {
    }
}

impl Integer for u64 {
    open spec fn value(self) -> int {
        self as int
    }

    fn is_zero(&self) -> (zero: bool) {
        *self == 0
    }

    proof fn whole(self) {
    }
}

impl Integer for u128 {
    open spec fn value(self) -> int {
        self as int
    }

    fn is_zero(&self) -> (zero: bool) {
        *self == 0
    }

    proof fn whole(self) {
    }
}

impl Integer for i8 {
    open spec fn value(self) -> int {
        self as int
    }

    fn is_zero(&self) -> (zero: bool) {
        *self == 0
    }

    proof fn whole(self) {
    }
}

impl Integer for i16 {
    open spec fn value(self) -> int {
        self as int
    }

    fn is_zero(&self) -> (zero: bool) {
        *self == 0
    }

    proof fn whole(self) {
    }
}

impl Integer for i32 {
    open spec fn value(self) -> int {
        self as int
    }

    fn is_zero(&self) -> (zero: bool) {
        *self == 0
    }

    proof fn whole(self) {
    }
}

impl Integer for i64 {
    open spec fn value(self) -> int {
        self as int
    }

    fn is_zero(&self) -> (zero: bool) {
        *self == 0
    }

    proof fn whole(self) {
    }
}

impl Integer for i128 {
    open spec fn value(self) -> int {
        self as int
    }

    fn is_zero(&self) -> (zero: bool) {
        *self == 0
    }

    proof fn whole(self) {
    }
}

/// A non-zero `u8`.
pub type NonZeroU8 = NonZero<u8>;

/// A non-zero `u16`.
pub type NonZeroU16 = NonZero<u16>;

/// A non-zero `u32`.
pub type NonZeroU32 = NonZero<u32>;

/// A non-zero `u64`.
pub type NonZeroU64 = NonZero<u64>;

/// A non-zero `u128`.
pub type NonZeroU128 = NonZero<u128>;

/// A non-zero `i8`.
pub type NonZeroI8 = NonZero<i8>;

/// A non-zero `i16`.
pub type NonZeroI16 = NonZero<i16>;

/// A non-zero `i32`.
pub type NonZeroI32 = NonZero<i32>;

/// A non-zero `i64`.
pub type NonZeroI64 = NonZero<i64>;

/// A non-zero `i128`.
pub type NonZeroI128 = NonZero<i128>;

/// The unsigned non-zero integers approved for storing buffer offsets.
///
/// The trait is sealed. An absent offset is stored as the all-zero pattern, which no value of these
/// types spells.
pub trait NonZeroUnsigned: Copy + Ord + Sealed {
    /// Width in bytes of the underlying integer.
    const SIZE: usize;

    /// Width in bytes of the underlying integer.
    spec fn width() -> nat;

    /// The constant is the width.
    proof fn sized()
        ensures
            Self::SIZE == Self::width(),
    ;

    /// The integer held.
    spec fn number(self) -> nat;

    /// Writes the integer as little-endian bytes over the start of `dst`.
    fn encode(self, dst: &mut [u8])
        requires
            Self::width() <= old(dst)@.len(),
        ensures
            final(dst)@ == le_bytes(self.number(), Self::width()) + old(dst)@.skip(
                Self::width() as int,
            ),
    ;

    /// Reads an integer from the little-endian bytes at the start of `src`, or [`None`] where it is
    /// zero.
    fn decode(src: &[u8]) -> (value: Option<Self>)
        requires
            Self::width() <= src@.len(),
        ensures
            value is None <==> le_value(src@.take(Self::width() as int)) == 0,
            value matches Some(v) ==> v.number() == le_value(src@.take(Self::width() as int)),
    ;
}

impl Sealed for NonZeroU8 {

}

impl NonZeroUnsigned for NonZeroU8 {
    const SIZE: usize = 1;

    open spec fn width() -> nat {
        1
    }

    proof fn sized() {
    }

    open spec fn number(self) -> nat {
        self.held() as nat
    }

    fn encode(self, dst: &mut [u8]) {
        write_le(self.get() as u128, Self::SIZE, dst);
    }

    fn decode(src: &[u8]) -> (value: Option<Self>) {
        proof {
            lemma_span_values();
            lemma_le_value_bound(src@.take(Self::SIZE as int));
        }
        NonZero::new(read_le(vstd::slice::slice_subrange(src, 0, Self::SIZE)) as u8)
    }
}

impl Sealed for NonZeroU16 {

}

impl NonZeroUnsigned for NonZeroU16 {
    const SIZE: usize = 2;

    open spec fn width() -> nat {
        2
    }

    proof fn sized() {
    }

    open spec fn number(self) -> nat {
        self.held() as nat
    }

    fn encode(self, dst: &mut [u8]) {
        write_le(self.get() as u128, Self::SIZE, dst);
    }

    fn decode(src: &[u8]) -> (value: Option<Self>) {
        proof {
            lemma_span_values();
            lemma_le_value_bound(src@.take(Self::SIZE as int));
        }
        NonZero::new(read_le(vstd::slice::slice_subrange(src, 0, Self::SIZE)) as u16)
    }
}

impl Sealed for NonZeroU32 {

}

impl NonZeroUnsigned for NonZeroU32 {
    const SIZE: usize = 4;

    open spec fn width() -> nat {
        4
    }

    proof fn sized() {
    }

    open spec fn number(self) -> nat {
        self.held() as nat
    }

    fn encode(self, dst: &mut [u8]) {
        write_le(self.get() as u128, Self::SIZE, dst);
    }

    fn decode(src: &[u8]) -> (value: Option<Self>) {
        proof {
            lemma_span_values();
            lemma_le_value_bound(src@.take(Self::SIZE as int));
        }
        NonZero::new(read_le(vstd::slice::slice_subrange(src, 0, Self::SIZE)) as u32)
    }
}

impl Sealed for NonZeroU64 {

}

impl NonZeroUnsigned for NonZeroU64 {
    const SIZE: usize = 8;

    open spec fn width() -> nat {
        8
    }

    proof fn sized() {
    }

    open spec fn number(self) -> nat {
        self.held() as nat
    }

    fn encode(self, dst: &mut [u8]) {
        write_le(self.get() as u128, Self::SIZE, dst);
    }

    fn decode(src: &[u8]) -> (value: Option<Self>) {
        proof {
            lemma_span_values();
            lemma_le_value_bound(src@.take(Self::SIZE as int));
        }
        NonZero::new(read_le(vstd::slice::slice_subrange(src, 0, Self::SIZE)) as u64)
    }
}

impl Sealed for NonZeroU128 {

}

impl NonZeroUnsigned for NonZeroU128 {
    const SIZE: usize = 16;

    open spec fn width() -> nat {
        16
    }

    proof fn sized() {
    }

    open spec fn number(self) -> nat {
        self.held() as nat
    }

    fn encode(self, dst: &mut [u8]) {
        write_le(self.get(), Self::SIZE, dst);
    }

    fn decode(src: &[u8]) -> (value: Option<Self>) {
        proof {
            lemma_span_values();
            lemma_le_value_bound(src@.take(Self::SIZE as int));
        }
        NonZero::new(read_le(vstd::slice::slice_subrange(src, 0, Self::SIZE)))
    }
}

/// Decoding the bytes that [`NonZeroUnsigned::encode`] wrote over `before` reads the same integer,
/// and so never the absent state.
pub proof fn law_encode_then_decode<T: NonZeroUnsigned>(value: T, before: Seq<u8>)
    requires
        0 < value.number() < span(T::width()),
        T::width() <= before.len(),
    ensures
        ({
            let written = le_bytes(value.number(), T::width()) + before.skip(T::width() as int);
            &&& written.len() == before.len()
            &&& le_value(written.take(T::width() as int)) == value.number()
        }),
{
    lemma_le_bytes_len(value.number(), T::width());
    lemma_le_round_trip(value.number(), T::width());
    let written = le_bytes(value.number(), T::width()) + before.skip(T::width() as int);
    assert(written.take(T::width() as int) =~= le_bytes(value.number(), T::width()));
}

/// An integer is wrapped unless it is zero, and comes back as it was.
pub proof fn law_wrapped_integers_come_back<T: Integer>(
    value: T,
    wrapped: Option<NonZero<T>>,
    back: T,
)
    requires
        call_ensures(NonZero::<T>::new, (value,), wrapped),
        wrapped matches Some(w) ==> call_ensures(NonZero::<T>::get, (&w,), back),
    ensures
        wrapped is None <==> value.value() == 0,
        wrapped is Some ==> back == value,
{
}

/// The value of an integer is the integer.
pub proof fn law_integers_are_their_values()
    ensures
        forall|n: u8| #[trigger] n.value() == n as int,
        forall|n: u16| #[trigger] n.value() == n as int,
        forall|n: u32| #[trigger] n.value() == n as int,
        forall|n: u64| #[trigger] n.value() == n as int,
        forall|n: u128| #[trigger] n.value() == n as int,
        forall|n: i8| #[trigger] n.value() == n as int,
        forall|n: i16| #[trigger] n.value() == n as int,
        forall|n: i32| #[trigger] n.value() == n as int,
        forall|n: i64| #[trigger] n.value() == n as int,
        forall|n: i128| #[trigger] n.value() == n as int,
{
}

/// A non-zero integer is encoded in as many bytes as its integer has, and by that integer.
pub proof fn law_encoded_widths(a: NonZeroU8, b: NonZeroU16, c: NonZeroU32, d: NonZeroU64, e: NonZeroU128)
    ensures
        <NonZeroU8 as NonZeroUnsigned>::width() == 1 && NonZeroUnsigned::number(a) == a.held(),
        <NonZeroU16 as NonZeroUnsigned>::width() == 2 && NonZeroUnsigned::number(b) == b.held(),
        <NonZeroU32 as NonZeroUnsigned>::width() == 4 && NonZeroUnsigned::number(c) == c.held(),
        <NonZeroU64 as NonZeroUnsigned>::width() == 8 && NonZeroUnsigned::number(d) == d.held(),
        <NonZeroU128 as NonZeroUnsigned>::width() == 16 && NonZeroUnsigned::number(e) == e.held(),
{
}

} // verus!
