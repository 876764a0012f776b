//! The order of items.

use crate::float::{Float32, Float64};
use crate::nonzero::{Integer, NonZero};
use vstd::arithmetic::power2::{lemma_pow2_pos, lemma_pow2_unfold, pow2};
use vstd::prelude::*;
use vstd::utf8::{encode_utf8, encode_utf8_decode_utf8};

verus! {

/// Items that can be compared. Two items may be incomparable, as numbers are with what is no number.
pub trait Ordered: DeepView + Sized {
    /// Whether `a` is strictly less than `b`.
    spec fn below(a: Self::V, b: Self::V) -> bool;

    /// Whether `a` is less than or equal to `b`.
    spec fn within(a: Self::V, b: Self::V) -> bool;

    /// Whether `self` is strictly less than `other`.
    fn less(&self, other: &Self) -> (less: bool)
        ensures
            less == Self::below(self.deep_view(), other.deep_view()),
    ;

    /// Whether `self` is less than or equal to `other`.
    fn at_most(&self, other: &Self) -> (at_most: bool)
        ensures
            at_most == Self::within(self.deep_view(), other.deep_view()),
    ;

    /// The comparisons chain, and strictly less excludes the reverse.
    proof fn chain(a: Self::V, b: Self::V, c: Self::V)
        ensures
            Self::within(a, b) && Self::within(b, c) ==> Self::within(a, c),
            Self::below(a, b) && Self::within(b, c) ==> Self::below(a, c),
            Self::within(a, b) && Self::below(b, c) ==> Self::below(a, c),
            Self::below(a, b) ==> Self::within(a, b) && !Self::within(b, a),
    ;
}

/// Items of which any two are comparable.
pub trait Total: Ordered {
    /// One of two items is less than or equal to the other; both are only where they are equal.
    proof fn total(a: Self::V, b: Self::V)
        ensures
            Self::within(a, b) || Self::within(b, a),
            Self::within(a, b) && Self::within(b, a) <==> a == b,
            Self::below(a, b) <==> !Self::within(b, a),
    ;
}

/// Lexicographic order of byte strings: a prefix comes before what it begins.
pub open spec fn lex_within(a: Seq<u8>, b: Seq<u8>) -> bool
    decreases a.len(),
{
    if a.len() == 0 {
        true
    } else if b.len() == 0 {
        false
    } else if a[0] != b[0] {
        a[0] < b[0]
    } else {
        lex_within(a.skip(1), b.skip(1))
    }
}

proof fn lemma_lex_chain(a: Seq<u8>, b: Seq<u8>, c: Seq<u8>)
    ensures
        lex_within(a, b) && lex_within(b, c) ==> lex_within(a, c),
    decreases a.len(),
{
    if a.len() > 0 && b.len() > 0 && c.len() > 0 {
        lemma_lex_chain(a.skip(1), b.skip(1), c.skip(1));
    }
}

proof fn lemma_lex_total(a: Seq<u8>, b: Seq<u8>)
    ensures
        lex_within(a, b) || lex_within(b, a),
        lex_within(a, b) && lex_within(b, a) <==> a == b,
    decreases a.len(),
{
    if a.len() > 0 && b.len() > 0 {
        lemma_lex_total(a.skip(1), b.skip(1));
        if lex_within(a, b) && lex_within(b, a) {
            assert(a =~= seq![a[0]] + a.skip(1));
            assert(b =~= seq![b[0]] + b.skip(1));
        }
    } else if a.len() == 0 && b.len() == 0 {
        assert(a =~= b);
    }
}

/// Whether `a` comes before or with `b` in lexicographic order.
pub fn lex_at_most(a: &[u8], b: &[u8]) -> (at_most: bool)
    ensures
        at_most == lex_within(a@, b@),
{
    let mut i: usize = 0;
    assert(a@.skip(0) =~= a@);
    assert(b@.skip(0) =~= b@);
    while i < a.len() && i < b.len()
        invariant
            i <= a@.len(),
            i <= b@.len(),
            lex_within(a@, b@) == lex_within(a@.skip(i as int), b@.skip(i as int)),
        decreases a@.len() - i,
    {
        proof {
            assert(a@.skip(i as int).skip(1) =~= a@.skip(i + 1));
            assert(b@.skip(i as int).skip(1) =~= b@.skip(i + 1));
        }
        if a[i] != b[i] {
            return a[i] < b[i];
        }
        i += 1;
    }
    i == a.len()
}

/// The order of text: the lexicographic order of its UTF-8 bytes.
pub open spec fn text_within(a: Seq<char>, b: Seq<char>) -> bool {
    lex_within(encode_utf8(a), encode_utf8(b))
}

/// Text order is total, and only equal texts are each at most the other.
pub proof fn lemma_text_total(a: Seq<char>, b: Seq<char>)
    ensures
        text_within(a, b) || text_within(b, a),
        text_within(a, b) && text_within(b, a) <==> a == b,
{
    lemma_lex_total(encode_utf8(a), encode_utf8(b));
    encode_utf8_decode_utf8(a);
    encode_utf8_decode_utf8(b);
}

/// Text order is transitive.
pub proof fn lemma_text_chain(a: Seq<char>, b: Seq<char>, c: Seq<char>)
    ensures
        text_within(a, b) && text_within(b, c) ==> text_within(a, c),
{
    lemma_lex_chain(encode_utf8(a), encode_utf8(b), encode_utf8(c));
}

/// Whether text `a` is at most `b`.
pub fn text_at_most(a: &str, b: &str) -> (at_most: bool)
    ensures
        at_most == text_within(a@, b@),
{
    lex_at_most(a.as_bytes(), b.as_bytes())
}

impl Ordered for String {
    open spec fn below(a: Seq<char>, b: Seq<char>) -> bool {
        !text_within(b, a)
    }

    open spec fn within(a: Seq<char>, b: Seq<char>) -> bool {
        text_within(a, b)
    }

    fn less(&self, other: &Self) -> (less: bool) {
        !text_at_most(other.as_str(), self.as_str())
    }

    fn at_most(&self, other: &Self) -> (at_most: bool) {
        text_at_most(self.as_str(), other.as_str())
    }

    proof fn chain(a: Seq<char>, b: Seq<char>, c: Seq<char>) {
        lemma_text_chain(a, b, c);
        lemma_text_chain(c, a, b);
        lemma_text_chain(b, c, a);
        lemma_text_total(a, b);
        lemma_text_total(b, c);
        lemma_text_total(a, c);
    }
}

impl Total for String {
    proof fn total(a: Seq<char>, b: Seq<char>) {
        lemma_text_total(a, b);
    }
}

impl<'d> Ordered for &'d str {
    open spec fn below(a: Seq<char>, b: Seq<char>) -> bool {
        !text_within(b, a)
    }

    open spec fn within(a: Seq<char>, b: Seq<char>) -> bool {
        text_within(a, b)
    }

    fn less(&self, other: &Self) -> (less: bool) {
        !text_at_most(other, self)
    }

    fn at_most(&self, other: &Self) -> (at_most: bool) {
        text_at_most(self, other)
    }

    proof fn chain(a: Seq<char>, b: Seq<char>, c: Seq<char>) {
        String::chain(a, b, c);
    }
}

impl<'d> Total for &'d str {
    proof fn total(a: Seq<char>, b: Seq<char>) {
        lemma_text_total(a, b);
    }
}

impl<T: Ordered + Integer> Ordered for NonZero<T> {
    open spec fn below(a: NonZero<T>, b: NonZero<T>) -> bool {
        T::below(a.held(), b.held())
    }

    open spec fn within(a: NonZero<T>, b: NonZero<T>) -> bool {
        T::within(a.held(), b.held())
    }

    fn less(&self, other: &Self) -> (less: bool) {
        let (a, b) = (self.get(), other.get());
        proof {
            a.whole();
            b.whole();
        }
        a.less(&b)
    }

    fn at_most(&self, other: &Self) -> (at_most: bool) {
        let (a, b) = (self.get(), other.get());
        proof {
            a.whole();
            b.whole();
        }
        a.at_most(&b)
    }

    proof fn chain(a: NonZero<T>, b: NonZero<T>, c: NonZero<T>) {
        T::chain(a.held(), b.held(), c.held());
    }
}

impl<T: Total + Integer> Total for NonZero<T> {
    proof fn total(a: NonZero<T>, b: NonZero<T>) {
        broadcast use crate::nonzero::group_nonzero;

        T::total(a.held(), b.held());
    }
}

impl Ordered for u8 {
    open spec fn below(a: u8, b: u8) -> bool {
        a < b
    }

    open spec fn within(a: u8, b: u8) -> bool {
        a <= b
    }

    fn less(&self, other: &Self) -> (less: bool) {
        *self < *other
    }

    fn at_most(&self, other: &Self) -> (at_most: bool) {
        *self <= *other
    }

    proof fn chain(a: u8, b: u8, c: u8) {
    }
}

impl Total for u8 {
    proof fn total(a: u8, b: u8) {
    }
}

impl Ordered for u16 {
    open spec fn below(a: u16, b: u16) -> bool {
        a < b
    }

    open spec fn within(a: u16, b: u16) -> bool {
        a <= b
    }

    fn less(&self, other: &Self) -> (less: bool) {
        *self < *other
    }

    fn at_most(&self, other: &Self) -> (at_most: bool) {
        *self <= *other
    }

    proof fn chain(a: u16, b: u16, c: u16) {
    }
}

impl Total for u16 {
    proof fn total(a: u16, b: u16) {
    }
}

impl Ordered for u32 {
    open spec fn below(a: u32, b: u32) -> bool {
        a < b
    }

    open spec fn within(a: u32, b: u32) -> bool {
        a <= b
    }

    fn less(&self, other: &Self) -> (less: bool) {
        *self < *other
    }

    fn at_most(&self, other: &Self) -> (at_most: bool) {
        *self <= *other
    }

    proof fn chain(a: u32, b: u32, c: u32) {
    }
}

impl Total for u32 {
    proof fn total(a: u32, b: u32) {
    }
}

impl Ordered for u64 {
    open spec fn below(a: u64, b: u64) -> bool {
        a < b
    }

    open spec fn within(a: u64, b: u64) -> bool {
        a <= b
    }

    fn less(&self, other: &Self) -> (less: bool) {
        *self < *other
    }

    fn at_most(&self, other: &Self) -> (at_most: bool) {
        *self <= *other
    }

    proof fn chain(a: u64, b: u64, c: u64) {
    }
}

impl Total for u64 {
    proof fn total(a: u64, b: u64) {
    }
}

impl Ordered for u128 {
    open spec fn below(a: u128, b: u128) -> bool {
        a < b
    }

    open spec fn within(a: u128, b: u128) -> bool {
        a <= b
    }

    fn less(&self, other: &Self) -> (less: bool) {
        *self < *other
    }

    fn at_most(&self, other: &Self) -> (at_most: bool) {
        *self <= *other
    }

    proof fn chain(a: u128, b: u128, c: u128) {
    }
}

impl Total for u128 {
    proof fn total(a: u128, b: u128) {
    }
}

impl Ordered for i8 {
    open spec fn below(a: i8, b: i8) -> bool {
        a < b
    }

    open spec fn within(a: i8, b: i8) -> bool {
        a <= b
    }

    fn less(&self, other: &Self) -> (less: bool) {
        *self < *other
    }

    fn at_most(&self, other: &Self) -> (at_most: bool) {
        *self <= *other
    }

    proof fn chain(a: i8, b: i8, c: i8) {
    }
}

impl Total for i8 {
    proof fn total(a: i8, b: i8) {
    }
}

impl Ordered for i16 {
    open spec fn below(a: i16, b: i16) -> bool {
        a < b
    }

    open spec fn within(a: i16, b: i16) -> bool {
        a <= b
    }

    fn less(&self, other: &Self) -> (less: bool) {
        *self < *other
    }

    fn at_most(&self, other: &Self) -> (at_most: bool) {
        *self <= *other
    }

    proof fn chain(a: i16, b: i16, c: i16) {
    }
}

impl Total for i16 {
    proof fn total(a: i16, b: i16) {
    }
}

impl Ordered for i32 {
    open spec fn below(a: i32, b: i32) -> bool {
        a < b
    }

    open spec fn within(a: i32, b: i32) -> bool {
        a <= b
    }

    fn less(&self, other: &Self) -> (less: bool) {
        *self < *other
    }

    fn at_most(&self, other: &Self) -> (at_most: bool) {
        *self <= *other
    }

    proof fn chain(a: i32, b: i32, c: i32) {
    }
}

impl Total for i32 {
    proof fn total(a: i32, b: i32) {
    }
}

impl Ordered for i64 {
    open spec fn below(a: i64, b: i64) -> bool {
        a < b
    }

    open spec fn within(a: i64, b: i64) -> bool {
        a <= b
    }

    fn less(&self, other: &Self) -> (less: bool) {
        *self < *other
    }

    fn at_most(&self, other: &Self) -> (at_most: bool) {
        *self <= *other
    }

    proof fn chain(a: i64, b: i64, c: i64) {
    }
}

impl Total for i64 {
    proof fn total(a: i64, b: i64) {
    }
}

impl Ordered for i128 {
    open spec fn below(a: i128, b: i128) -> bool {
        a < b
    }

    open spec fn within(a: i128, b: i128) -> bool {
        a <= b
    }

    fn less(&self, other: &Self) -> (less: bool) {
        *self < *other
    }

    fn at_most(&self, other: &Self) -> (at_most: bool) {
        *self <= *other
    }

    proof fn chain(a: i128, b: i128, c: i128) {
    }
}

impl Total for i128 {
    proof fn total(a: i128, b: i128) {
    }
}

impl Ordered for char {
    open spec fn below(a: char, b: char) -> bool {
        a < b
    }

    open spec fn within(a: char, b: char) -> bool {
        a <= b
    }

    fn less(&self, other: &Self) -> (less: bool) {
        *self < *other
    }

    fn at_most(&self, other: &Self) -> (at_most: bool) {
        *self <= *other
    }

    proof fn chain(a: char, b: char, c: char) {
    }
}

impl Total for char {
    proof fn total(a: char, b: char) {
    }
}

impl Ordered for bool {
    open spec fn below(a: bool, b: bool) -> bool {
        !a && b
    }

    open spec fn within(a: bool, b: bool) -> bool {
        !a || b
    }

    fn less(&self, other: &Self) -> (less: bool) {
        !*self && *other
    }

    fn at_most(&self, other: &Self) -> (at_most: bool) {
        !*self || *other
    }

    proof fn chain(a: bool, b: bool, c: bool) {
    }
}

impl Total for bool {
    proof fn total(a: bool, b: bool) {
    }
}

impl Ordered for Float32 {
    open spec fn below(a: Float32, b: Float32) -> bool {
        !a.is_nan() && !b.is_nan() && a.rank() < b.rank()
    }

    open spec fn within(a: Float32, b: Float32) -> bool {
        !a.is_nan() && !b.is_nan() && a.rank() <= b.rank()
    }

    fn less(&self, other: &Self) -> (less: bool) {
        match (self.ranked(), other.ranked()) {
            (Some(a), Some(b)) => a < b,
            _ => false,
        }
    }

    fn at_most(&self, other: &Self) -> (at_most: bool) {
        match (self.ranked(), other.ranked()) {
            (Some(a), Some(b)) => a <= b,
            _ => false,
        }
    }

    proof fn chain(a: Float32, b: Float32, c: Float32) {
    }
}

impl Ordered for Float64 {
    open spec fn below(a: Float64, b: Float64) -> bool {
        !a.is_nan() && !b.is_nan() && a.rank() < b.rank()
    }

    open spec fn within(a: Float64, b: Float64) -> bool {
        !a.is_nan() && !b.is_nan() && a.rank() <= b.rank()
    }

    fn less(&self, other: &Self) -> (less: bool) {
        match (self.ranked(), other.ranked()) {
            (Some(a), Some(b)) => a < b,
            _ => false,
        }
    }

    fn at_most(&self, other: &Self) -> (at_most: bool) {
        match (self.ranked(), other.ranked()) {
            (Some(a), Some(b)) => a <= b,
            _ => false,
        }
    }

    proof fn chain(a: Float64, b: Float64, c: Float64) {
    }
}

// ---------------------------------------------------------------- laws

/// Unsigned integers are compared by their values.
pub proof fn law_unsigned_integers_are_compared_by_value(
    u8s: (u8, u8, bool, bool),
    u16s: (u16, u16, bool, bool),
    u32s: (u32, u32, bool, bool),
    u64s: (u64, u64, bool, bool),
    u128s: (u128, u128, bool, bool),
)
    requires
        call_ensures(<u8 as Ordered>::less, (&u8s.0, &u8s.1), u8s.2),
        call_ensures(<u8 as Ordered>::at_most, (&u8s.0, &u8s.1), u8s.3),
        call_ensures(<u16 as Ordered>::less, (&u16s.0, &u16s.1), u16s.2),
        call_ensures(<u16 as Ordered>::at_most, (&u16s.0, &u16s.1), u16s.3),
        call_ensures(<u32 as Ordered>::less, (&u32s.0, &u32s.1), u32s.2),
        call_ensures(<u32 as Ordered>::at_most, (&u32s.0, &u32s.1), u32s.3),
        call_ensures(<u64 as Ordered>::less, (&u64s.0, &u64s.1), u64s.2),
        call_ensures(<u64 as Ordered>::at_most, (&u64s.0, &u64s.1), u64s.3),
        call_ensures(<u128 as Ordered>::less, (&u128s.0, &u128s.1), u128s.2),
        call_ensures(<u128 as Ordered>::at_most, (&u128s.0, &u128s.1), u128s.3),
    ensures
        u8s.2 == ((u8s.0 as int) < (u8s.1 as int)),
        u8s.3 == (u8s.0 as int <= u8s.1 as int),
        <u8 as Ordered>::below(u8s.0, u8s.1) == ((u8s.0 as int) < (u8s.1 as int)),
        <u8 as Ordered>::within(u8s.0, u8s.1) == (u8s.0 as int <= u8s.1 as int),
        u16s.2 == ((u16s.0 as int) < (u16s.1 as int)),
        u16s.3 == (u16s.0 as int <= u16s.1 as int),
        <u16 as Ordered>::below(u16s.0, u16s.1) == ((u16s.0 as int) < (u16s.1 as int)),
        <u16 as Ordered>::within(u16s.0, u16s.1) == (u16s.0 as int <= u16s.1 as int),
        u32s.2 == ((u32s.0 as int) < (u32s.1 as int)),
        u32s.3 == (u32s.0 as int <= u32s.1 as int),
        <u32 as Ordered>::below(u32s.0, u32s.1) == ((u32s.0 as int) < (u32s.1 as int)),
        <u32 as Ordered>::within(u32s.0, u32s.1) == (u32s.0 as int <= u32s.1 as int),
        u64s.2 == ((u64s.0 as int) < (u64s.1 as int)),
        u64s.3 == (u64s.0 as int <= u64s.1 as int),
        <u64 as Ordered>::below(u64s.0, u64s.1) == ((u64s.0 as int) < (u64s.1 as int)),
        <u64 as Ordered>::within(u64s.0, u64s.1) == (u64s.0 as int <= u64s.1 as int),
        u128s.2 == ((u128s.0 as int) < (u128s.1 as int)),
        u128s.3 == (u128s.0 as int <= u128s.1 as int),
        <u128 as Ordered>::below(u128s.0, u128s.1) == ((u128s.0 as int) < (u128s.1 as int)),
        <u128 as Ordered>::within(u128s.0, u128s.1) == (u128s.0 as int <= u128s.1 as int),
{
}

/// Signed integers are compared by their values.
pub proof fn law_signed_integers_are_compared_by_value(
    i8s: (i8, i8, bool, bool),
    i16s: (i16, i16, bool, bool),
    i32s: (i32, i32, bool, bool),
    i64s: (i64, i64, bool, bool),
    i128s: (i128, i128, bool, bool),
)
    requires
        call_ensures(<i8 as Ordered>::less, (&i8s.0, &i8s.1), i8s.2),
        call_ensures(<i8 as Ordered>::at_most, (&i8s.0, &i8s.1), i8s.3),
        call_ensures(<i16 as Ordered>::less, (&i16s.0, &i16s.1), i16s.2),
        call_ensures(<i16 as Ordered>::at_most, (&i16s.0, &i16s.1), i16s.3),
        call_ensures(<i32 as Ordered>::less, (&i32s.0, &i32s.1), i32s.2),
        call_ensures(<i32 as Ordered>::at_most, (&i32s.0, &i32s.1), i32s.3),
        call_ensures(<i64 as Ordered>::less, (&i64s.0, &i64s.1), i64s.2),
        call_ensures(<i64 as Ordered>::at_most, (&i64s.0, &i64s.1), i64s.3),
        call_ensures(<i128 as Ordered>::less, (&i128s.0, &i128s.1), i128s.2),
        call_ensures(<i128 as Ordered>::at_most, (&i128s.0, &i128s.1), i128s.3),
    ensures
        i8s.2 == ((i8s.0 as int) < (i8s.1 as int)),
        i8s.3 == (i8s.0 as int <= i8s.1 as int),
        <i8 as Ordered>::below(i8s.0, i8s.1) == ((i8s.0 as int) < (i8s.1 as int)),
        <i8 as Ordered>::within(i8s.0, i8s.1) == (i8s.0 as int <= i8s.1 as int),
        i16s.2 == ((i16s.0 as int) < (i16s.1 as int)),
        i16s.3 == (i16s.0 as int <= i16s.1 as int),
        <i16 as Ordered>::below(i16s.0, i16s.1) == ((i16s.0 as int) < (i16s.1 as int)),
        <i16 as Ordered>::within(i16s.0, i16s.1) == (i16s.0 as int <= i16s.1 as int),
        i32s.2 == ((i32s.0 as int) < (i32s.1 as int)),
        i32s.3 == (i32s.0 as int <= i32s.1 as int),
        <i32 as Ordered>::below(i32s.0, i32s.1) == ((i32s.0 as int) < (i32s.1 as int)),
        <i32 as Ordered>::within(i32s.0, i32s.1) == (i32s.0 as int <= i32s.1 as int),
        i64s.2 == ((i64s.0 as int) < (i64s.1 as int)),
        i64s.3 == (i64s.0 as int <= i64s.1 as int),
        <i64 as Ordered>::below(i64s.0, i64s.1) == ((i64s.0 as int) < (i64s.1 as int)),
        <i64 as Ordered>::within(i64s.0, i64s.1) == (i64s.0 as int <= i64s.1 as int),
        i128s.2 == ((i128s.0 as int) < (i128s.1 as int)),
        i128s.3 == (i128s.0 as int <= i128s.1 as int),
        <i128 as Ordered>::below(i128s.0, i128s.1) == ((i128s.0 as int) < (i128s.1 as int)),
        <i128 as Ordered>::within(i128s.0, i128s.1) == (i128s.0 as int <= i128s.1 as int),
{
}

/// Characters are compared by their scalar values.
pub proof fn law_characters_are_compared_by_value(a: char, b: char, less: bool, at_most: bool)
    requires
        call_ensures(<char as Ordered>::less, (&a, &b), less),
        call_ensures(<char as Ordered>::at_most, (&a, &b), at_most),
    ensures
        less == ((a as u32) < (b as u32)),
        at_most == (a as u32 <= b as u32),
        <char as Ordered>::below(a, b) == ((a as u32) < (b as u32)),
        <char as Ordered>::within(a, b) == (a as u32 <= b as u32),
{
}

/// Truth values are compared with `false` before `true`.
pub proof fn law_truth_values_are_compared_by_value(a: bool, b: bool, less: bool, at_most: bool)
    requires
        call_ensures(<bool as Ordered>::less, (&a, &b), less),
        call_ensures(<bool as Ordered>::at_most, (&a, &b), at_most),
    ensures
        less == (a == false && b == true),
        at_most == (a == b || b == true),
        <bool as Ordered>::below(a, b) == (a == false && b == true),
        <bool as Ordered>::within(a, b) == (a == b || b == true),
{
}

/// Non-zero integers are compared as the integers that were wrapped are.
pub proof fn law_nonzero_integers_are_compared_by_value<T: Ordered + Integer>(
    a: (T, NonZero<T>),
    b: (T, NonZero<T>),
    less: bool,
    at_most: bool,
)
    requires
        call_ensures(NonZero::<T>::new, (a.0,), Some(a.1)),
        call_ensures(NonZero::<T>::new, (b.0,), Some(b.1)),
        call_ensures(<NonZero<T> as Ordered>::less, (&a.1, &b.1), less),
        call_ensures(<NonZero<T> as Ordered>::at_most, (&a.1, &b.1), at_most),
    ensures
        less == T::below(a.0, b.0),
        at_most == T::within(a.0, b.0),
        <NonZero<T> as Ordered>::below(a.1, b.1) == T::below(a.0, b.0),
        <NonZero<T> as Ordered>::within(a.1, b.1) == T::within(a.0, b.0),
{
    broadcast use crate::nonzero::group_nonzero;

    a.0.whole();
    b.0.whole();
}

/// Whether `a` comes before `b` in lexicographic order: at the first place where they differ `a` has the
/// smaller byte, or has ended.
pub open spec fn precedes(a: Seq<u8>, b: Seq<u8>) -> bool {
    exists|k: int|
        0 <= k <= a.len() && k <= b.len() && #[trigger] a.take(k) == b.take(k) && {
            ||| k == a.len() && k < b.len()
            ||| k < a.len() && k < b.len() && a[k] < b[k]
        }
}

/// What comes before or with another does so at the first place where they differ.
pub proof fn lemma_precedes(a: Seq<u8>, b: Seq<u8>)
    ensures
        lex_within(a, b) == (a == b || precedes(a, b)),
    decreases a.len(),
{
    if a.len() == 0 {
        if b.len() > 0 {
            assert(a.take(0) == b.take(0));
        } else {
            assert(a =~= b);
        }
    } else if b.len() == 0 {
    } else if a[0] != b[0] {
        assert(a.take(0) == b.take(0));
        if precedes(a, b) {
            let k = choose|k: int|
                0 <= k <= a.len() && k <= b.len() && #[trigger] a.take(k) == b.take(k) && {
                    ||| k == a.len() && k < b.len()
                    ||| k < a.len() && k < b.len() && a[k] < b[k]
                };
            if k > 0 {
                assert(a.take(k)[0] == b.take(k)[0]);
            }
        }
    } else {
        let (x, y) = (a.skip(1), b.skip(1));
        lemma_precedes(x, y);
        if x == y {
            assert(a =~= seq![a[0]] + x);
            assert(b =~= seq![b[0]] + y);
        }
        if precedes(x, y) {
            let k = choose|k: int|
                0 <= k <= x.len() && k <= y.len() && #[trigger] x.take(k) == y.take(k) && {
                    ||| k == x.len() && k < y.len()
                    ||| k < x.len() && k < y.len() && x[k] < y[k]
                };
            assert(a.take(k + 1) =~= seq![a[0]] + x.take(k));
            assert(b.take(k + 1) =~= seq![b[0]] + y.take(k));
            assert(a.take(k + 1) == b.take(k + 1));
        }
        if precedes(a, b) {
            let k = choose|k: int|
                0 <= k <= a.len() && k <= b.len() && #[trigger] a.take(k) == b.take(k) && {
                    ||| k == a.len() && k < b.len()
                    ||| k < a.len() && k < b.len() && a[k] < b[k]
                };
            assert(k > 0);
            assert(x.take(k - 1) =~= a.take(k).skip(1));
            assert(y.take(k - 1) =~= b.take(k).skip(1));
            assert(x.take(k - 1) == y.take(k - 1));
        }
    }
}

/// Texts are compared by the first byte of their encodings that differs.
pub proof fn law_texts_are_compared_by_their_first_difference(
    a: String,
    b: String,
    owned: (bool, bool),
    x: &str,
    y: &str,
    borrowed: (bool, bool),
)
    requires
        call_ensures(<String as Ordered>::less, (&a, &b), owned.0),
        call_ensures(<String as Ordered>::at_most, (&a, &b), owned.1),
        x@ == a@,
        y@ == b@,
        call_ensures(<&str as Ordered>::less, (&x, &y), borrowed.0),
        call_ensures(<&str as Ordered>::at_most, (&x, &y), borrowed.1),
    ensures
        borrowed == owned,
        owned.0 == precedes(encode_utf8(a@), encode_utf8(b@)),
        owned.1 == (a@ == b@ || precedes(encode_utf8(a@), encode_utf8(b@))),
        <String as Ordered>::below(a@, b@) == precedes(encode_utf8(a@), encode_utf8(b@)),
        <&str as Ordered>::below(a@, b@) == precedes(encode_utf8(a@), encode_utf8(b@)),
        <String as Ordered>::within(a@, b@) == (a@ == b@ || precedes(
            encode_utf8(a@),
            encode_utf8(b@),
        )),
        <&str as Ordered>::within(a@, b@) == (a@ == b@ || precedes(
            encode_utf8(a@),
            encode_utf8(b@),
        )),
{
    let (x, y) = (encode_utf8(a@), encode_utf8(b@));
    lemma_precedes(x, y);
    lemma_precedes(y, x);
    lemma_text_total(a@, b@);
    lemma_lex_total(x, y);
    encode_utf8_decode_utf8(a@);
    encode_utf8_decode_utf8(b@);
    if precedes(x, y) && x == y {
        let k = choose|k: int|
            0 <= k <= x.len() && k <= y.len() && #[trigger] x.take(k) == y.take(k) && {
                ||| k == x.len() && k < y.len()
                ||| k < x.len() && k < y.len() && x[k] < y[k]
            };
        assert(false);
    }
}

/// The number that a floating point pattern without its sign stands for, in units of the smallest
/// positive number, where `unit` is the number of fractions that each exponent has.
pub open spec fn scaled(magnitude: nat, unit: nat) -> nat {
    let (exponent, fraction) = (magnitude / unit, magnitude % unit);
    if exponent == 0 {
        fraction
    } else {
        (unit + fraction) * pow2((exponent - 1) as nat)
    }
}

/// The number that a floating point pattern stands for, where `signs` is the number of patterns of each
/// sign.
pub open spec fn number_of(bits: nat, signs: nat, unit: nat) -> int {
    if bits < signs {
        scaled(bits, unit) as int
    } else {
        -(scaled((bits - signs) as nat, unit) as int)
    }
}

/// A greater pattern stands for a greater number.
proof fn lemma_scaled_next(m: nat, unit: nat)
    requires
        unit > 0,
    ensures
        scaled(m, unit) < scaled(m + 1, unit),
{
    let (e, f) = (m / unit, m % unit);
    vstd::arithmetic::div_mod::lemma_fundamental_div_mod(m as int, unit as int);
    if f + 1 < unit {
        vstd::arithmetic::div_mod::lemma_fundamental_div_mod_converse(
            (m + 1) as int,
            unit as int,
            e as int,
            (f + 1) as int,
        );
        if e > 0 {
            lemma_pow2_pos((e - 1) as nat);
            let p = pow2((e - 1) as nat);
            assert((unit + f) * p < (unit + f + 1) * p) by (nonlinear_arith)
                requires
                    p > 0,
            ;
        }
    } else {
        assert(m + 1 == unit * (e + 1)) by (nonlinear_arith)
            requires
                m == unit * e + f,
                f + 1 == unit,
        ;
        vstd::arithmetic::div_mod::lemma_fundamental_div_mod_converse(
            (m + 1) as int,
            unit as int,
            (e + 1) as int,
            0,
        );
        lemma_pow2_pos(e);
        let q = pow2(e);
        if e > 0 {
            lemma_pow2_unfold(e);
            let p = pow2((e - 1) as nat);
            assert((unit + f) * p < unit * q) by (nonlinear_arith)
                requires
                    q == 2 * p,
                    p > 0,
                    q > 0,
                    f + 1 == unit,
            ;
        } else {
            assert(f < unit * q) by (nonlinear_arith)
                requires
                    q > 0,
                    f + 1 == unit,
            ;
        }
    }
}

/// A greater pattern stands for a greater number.
proof fn lemma_scaled(a: nat, b: nat, unit: nat)
    requires
        unit > 0,
        a < b,
    ensures
        scaled(a, unit) < scaled(b, unit),
    decreases b - a,
{
    lemma_scaled_next(a, unit);
    if a + 1 < b {
        lemma_scaled(a + 1, b, unit);
    }
}

/// The order of two patterns is that of their numbers.
proof fn lemma_numbers(a: nat, b: nat, signs: nat, unit: nat)
    requires
        unit > 0,
        a < 2 * signs,
        b < 2 * signs,
    ensures
        ({
            let rank = |x: nat|
                if x < signs {
                    x as int
                } else {
                    -(x - signs)
                };
            (rank(a) < rank(b)) == (number_of(a, signs, unit) < number_of(b, signs, unit)) && (rank(a)
                <= rank(b)) == (number_of(a, signs, unit) <= number_of(b, signs, unit))
        }),
{
    let x = if a < signs {
        a
    } else {
        (a - signs) as nat
    };
    let y = if b < signs {
        b
    } else {
        (b - signs) as nat
    };
    assert(scaled(0, unit) == 0) by {
        vstd::arithmetic::div_mod::lemma_fundamental_div_mod_converse(0, unit as int, 0, 0);
    }
    if x < y {
        lemma_scaled(x, y, unit);
    }
    if y < x {
        lemma_scaled(y, x, unit);
    }
    if 0 < x {
        lemma_scaled(0, x, unit);
    }
    if 0 < y {
        lemma_scaled(0, y, unit);
    }
}

/// Numbers of single precision are compared by their values, and what is no number compares with nothing.
pub proof fn law_single_precision_numbers_are_compared_by_value(
    a: Float32,
    b: Float32,
    less: bool,
    at_most: bool,
)
    requires
        call_ensures(<Float32 as Ordered>::less, (&a, &b), less),
        call_ensures(<Float32 as Ordered>::at_most, (&a, &b), at_most),
    ensures
        ({
            let numbers = a.bits as int % 0x8000_0000 <= 0x7F80_0000 && b.bits as int % 0x8000_0000
                <= 0x7F80_0000;
            let x = number_of(a.bits as nat, 0x8000_0000, 0x80_0000);
            let y = number_of(b.bits as nat, 0x8000_0000, 0x80_0000);
            &&& less == (numbers && x < y)
            &&& at_most == (numbers && x <= y)
            &&& <Float32 as Ordered>::below(a, b) == (numbers && x < y)
            &&& <Float32 as Ordered>::within(a, b) == (numbers && x <= y)
        }),
{
    lemma_numbers(a.bits as nat, b.bits as nat, 0x8000_0000, 0x80_0000);
}

/// Numbers of double precision are compared by their values, and what is no number compares with nothing.
pub proof fn law_double_precision_numbers_are_compared_by_value(
    a: Float64,
    b: Float64,
    less: bool,
    at_most: bool,
)
    requires
        call_ensures(<Float64 as Ordered>::less, (&a, &b), less),
        call_ensures(<Float64 as Ordered>::at_most, (&a, &b), at_most),
    ensures
        ({
            let numbers = a.bits as int % 0x8000_0000_0000_0000 <= 0x7FF0_0000_0000_0000
                && b.bits as int % 0x8000_0000_0000_0000 <= 0x7FF0_0000_0000_0000;
            let x = number_of(a.bits as nat, 0x8000_0000_0000_0000, 0x10_0000_0000_0000);
            let y = number_of(b.bits as nat, 0x8000_0000_0000_0000, 0x10_0000_0000_0000);
            &&& less == (numbers && x < y)
            &&& at_most == (numbers && x <= y)
            &&& <Float64 as Ordered>::below(a, b) == (numbers && x < y)
            &&& <Float64 as Ordered>::within(a, b) == (numbers && x <= y)
        }),
{
    lemma_numbers(a.bits as nat, b.bits as nat, 0x8000_0000_0000_0000, 0x10_0000_0000_0000);
}

} // verus!
