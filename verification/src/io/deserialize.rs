//! Decoding values from the front of a byte slice.

use super::error::{viewed, Error, NumberError};
use crate::nonzero::{Integer, NonZero};
use crate::num::{le_value, lemma_le_value_bound, lemma_span_values, read_le, signed};
use vstd::prelude::*;
use vstd::utf8::{decode_utf8, encode_utf8, valid_utf8};

verus! {

/// A value that can be decoded from the front of a byte slice.
pub trait Deserialize<'de>: DeepView + Sized {
    /// What decoding from `src` gives, and what is left of `src` after it.
    spec fn parse(src: Seq<u8>) -> (Result<Self::V, Error>, Seq<u8>);

    /// Decodes a value from the front of `src`, moving `src` past what was read.
    fn deserialize(src: &mut &'de [u8]) -> (value: Result<Self, Error>)
        ensures
            viewed(value) == Self::parse(old(src)@).0,
            final(src)@ == Self::parse(old(src)@).1,
    ;
}

/// A value whose encoding has the same number of bytes whatever it is.
pub trait Fixed: DeepView<V = Self> + Copy {
    /// The number of bytes.
    spec fn width() -> nat;

    /// The number of bytes.
    fn size() -> (n: usize)
        ensures
            n == Self::width(),
    ;

    /// What the bytes spell.
    spec fn spelled(bytes: Seq<u8>) -> Result<Self, Error>;

    /// Reads a value from exactly its bytes.
    fn read(bytes: &[u8]) -> (value: Result<Self, Error>)
        requires
            bytes@.len() == Self::width(),
        ensures
            value == Self::spelled(bytes@),
    ;

    /// The deep view of a value is the value.
    proof fn plain(self)
        ensures
            self.deep_view() == self,
    ;
}

/// What decoding a fixed-width value from `src` gives: an error that consumes nothing where too few
/// bytes are present, and otherwise what the leading bytes spell.
pub open spec fn fixed_parse<T: Fixed>(src: Seq<u8>) -> (Result<T, Error>, Seq<u8>) {
    if src.len() < T::width() {
        (
            Err(Error::Truncated { expected: T::width() as usize, actual: src.len() as usize }),
            src,
        )
    } else {
        (T::spelled(src.take(T::width() as int)), src.skip(T::width() as int))
    }
}

impl<'de, T: Fixed> Deserialize<'de> for T {
    open spec fn parse(src: Seq<u8>) -> (Result<Self::V, Error>, Seq<u8>) {
        fixed_parse::<T>(src)
    }

    fn deserialize(src: &mut &'de [u8]) -> (value: Result<Self, Error>) {
        let all: &'de [u8] = *src;
        let width: usize = T::size();
        if all.len() < width {
            return Err(Error::Truncated { expected: width, actual: all.len() });
        }
        let (head, tail) = all.split_at(width);
        proof {
            assert(head@ =~= all@.take(T::width() as int));
            assert(tail@ =~= all@.skip(T::width() as int));
        }
        *src = tail;
        let value = T::read(head);
        proof {
            if let Ok(v) = value {
                v.plain();
            }
        }
        value
    }
}

impl<'de> Deserialize<'de> for &'de [u8] {
    /// The whole source.
    open spec fn parse(src: Seq<u8>) -> (Result<Self::V, Error>, Seq<u8>) {
        (Ok(src), Seq::empty())
    }

    fn deserialize(src: &mut &'de [u8]) -> (value: Result<Self, Error>) {
        let all: &'de [u8] = *src;
        let (_, tail) = all.split_at(all.len());
        *src = tail;
        proof {
            assert(tail@ =~= Seq::<u8>::empty());
            assert(all.deep_view() =~= all@);
        }
        Ok(all)
    }
}

/// Why [`core::str::from_utf8`] rejected bytes; its contents are not examined.
#[verifier::external_type_specification]
#[verifier::external_body]
pub struct ExUtf8Error(core::str::Utf8Error);

/// [`core::str::from_utf8`] accepts exactly the valid UTF-8 sequences and borrows them as text with
/// the same encoding.
pub assume_specification[ core::str::from_utf8 ](bytes: &[u8]) -> (borrowed_text: Result<
    &str,
    core::str::Utf8Error,
>)
    ensures
        borrowed_text is Ok <==> valid_utf8(bytes@),
        borrowed_text matches Ok(t) ==> encode_utf8(t@) == bytes@,
;

/// The text that `bytes` encode.
pub open spec fn text(bytes: Seq<u8>) -> Result<Seq<char>, Error> {
    if valid_utf8(bytes) {
        Ok(decode_utf8(bytes))
    } else {
        Err(Error::Utf8)
    }
}

/// Borrows `bytes` as text.
pub fn to_text<'d>(bytes: &'d [u8]) -> (borrowed: Result<&'d str, Error>)
    ensures
        match borrowed {
            Ok(t) => text(bytes@) == Ok::<Seq<char>, Error>(t@),
            Err(e) => text(bytes@) == Err::<Seq<char>, Error>(e),
        },
{
    match core::str::from_utf8(bytes) {
        Ok(t) => {
            proof {
                vstd::utf8::encode_utf8_decode_utf8(t@);
            }
            Ok(t)
        },
        Err(_) => Err(Error::Utf8),
    }
}

impl<'de> Deserialize<'de> for String {
    /// The whole source as text.
    open spec fn parse(src: Seq<u8>) -> (Result<Self::V, Error>, Seq<u8>) {
        (text(src), Seq::empty())
    }

    fn deserialize(src: &mut &'de [u8]) -> (value: Result<Self, Error>) {
        let all: &'de [u8] = *src;
        let (_, tail) = all.split_at(all.len());
        *src = tail;
        assert(tail@ =~= Seq::<u8>::empty());
        match to_text(all) {
            Ok(t) => Ok(t.to_owned()),
            Err(e) => Err(e),
        }
    }
}

impl Fixed for u8 {
    open spec fn width() -> nat {
        1
    }

    fn size() -> (n: usize) {
        1
    }

    open spec fn spelled(bytes: Seq<u8>) -> Result<Self, Error> {
        Ok(le_value(bytes) as u8)
    }

    fn read(bytes: &[u8]) -> (value: Result<Self, Error>) {
        proof {
            lemma_span_values();
            lemma_le_value_bound(bytes@);
        }
        Ok(read_le(bytes) as u8)
    }

    proof fn plain(self) {
    }
}

impl Fixed for u16 {
    open spec fn width() -> nat {
        2
    }

    fn size() -> (n: usize) {
        2
    }

    open spec fn spelled(bytes: Seq<u8>) -> Result<Self, Error> {
        Ok(le_value(bytes) as u16)
    }

    fn read(bytes: &[u8]) -> (value: Result<Self, Error>) {
        proof {
            lemma_span_values();
            lemma_le_value_bound(bytes@);
        }
        Ok(read_le(bytes) as u16)
    }

    proof fn plain(self) {
    }
}

impl Fixed for u32 {
    open spec fn width() -> nat {
        4
    }

    fn size() -> (n: usize) {
        4
    }

    open spec fn spelled(bytes: Seq<u8>) -> Result<Self, Error> {
        Ok(le_value(bytes) as u32)
    }

    fn read(bytes: &[u8]) -> (value: Result<Self, Error>) {
        proof {
            lemma_span_values();
            lemma_le_value_bound(bytes@);
        }
        Ok(read_le(bytes) as u32)
    }

    proof fn plain(self) {
    }
}

impl Fixed for u64 {
    open spec fn width() -> nat {
        8
    }

    fn size() -> (n: usize) {
        8
    }

    open spec fn spelled(bytes: Seq<u8>) -> Result<Self, Error> {
        Ok(le_value(bytes) as u64)
    }

    fn read(bytes: &[u8]) -> (value: Result<Self, Error>) {
        proof {
            lemma_span_values();
            lemma_le_value_bound(bytes@);
        }
        Ok(read_le(bytes) as u64)
    }

    proof fn plain(self) {
    }
}

impl Fixed for u128 {
    open spec fn width() -> nat {
        16
    }

    fn size() -> (n: usize) {
        16
    }

    open spec fn spelled(bytes: Seq<u8>) -> Result<Self, Error> {
        Ok(le_value(bytes) as u128)
    }

    fn read(bytes: &[u8]) -> (value: Result<Self, Error>) {
        proof {
            lemma_span_values();
            lemma_le_value_bound(bytes@);
        }
        Ok(read_le(bytes))
    }

    proof fn plain(self) {
    }
}

impl Fixed for i8 {
    open spec fn width() -> nat {
        1
    }

    fn size() -> (n: usize) {
        1
    }

    open spec fn spelled(bytes: Seq<u8>) -> Result<Self, Error> {
        Ok(signed(le_value(bytes), 1) as i8)
    }

    fn read(bytes: &[u8]) -> (value: Result<Self, Error>) {
        let raw: u128 = read_le(bytes);
        proof {
            lemma_span_values();
            lemma_le_value_bound(bytes@);
        }
        Ok(
            if raw < 0x80 {
                raw as i8
            } else {
                (raw - 0x80) as i8 + i8::MIN
            },
        )
    }

    proof fn plain(self) {
    }
}

impl Fixed for i16 {
    open spec fn width() -> nat {
        2
    }

    fn size() -> (n: usize) {
        2
    }

    open spec fn spelled(bytes: Seq<u8>) -> Result<Self, Error> {
        Ok(signed(le_value(bytes), 2) as i16)
    }

    fn read(bytes: &[u8]) -> (value: Result<Self, Error>) {
        let raw: u128 = read_le(bytes);
        proof {
            lemma_span_values();
            lemma_le_value_bound(bytes@);
        }
        Ok(
            if raw < 0x8000 {
                raw as i16
            } else {
                (raw - 0x8000) as i16 + i16::MIN
            },
        )
    }

    proof fn plain(self) {
    }
}

impl Fixed for i32 {
    open spec fn width() -> nat {
        4
    }

    fn size() -> (n: usize) {
        4
    }

    open spec fn spelled(bytes: Seq<u8>) -> Result<Self, Error> {
        Ok(signed(le_value(bytes), 4) as i32)
    }

    fn read(bytes: &[u8]) -> (value: Result<Self, Error>) {
        let raw: u128 = read_le(bytes);
        proof {
            lemma_span_values();
            lemma_le_value_bound(bytes@);
        }
        Ok(
            if raw < 0x80000000 {
                raw as i32
            } else {
                (raw - 0x80000000) as i32 + i32::MIN
            },
        )
    }

    proof fn plain(self) {
    }
}

impl Fixed for i64 {
    open spec fn width() -> nat {
        8
    }

    fn size() -> (n: usize) {
        8
    }

    open spec fn spelled(bytes: Seq<u8>) -> Result<Self, Error> {
        Ok(signed(le_value(bytes), 8) as i64)
    }

    fn read(bytes: &[u8]) -> (value: Result<Self, Error>) {
        let raw: u128 = read_le(bytes);
        proof {
            lemma_span_values();
            lemma_le_value_bound(bytes@);
        }
        Ok(
            if raw < 0x8000000000000000 {
                raw as i64
            } else {
                (raw - 0x8000000000000000) as i64 + i64::MIN
            },
        )
    }

    proof fn plain(self) {
    }
}

impl Fixed for i128 {
    open spec fn width() -> nat {
        16
    }

    fn size() -> (n: usize) {
        16
    }

    open spec fn spelled(bytes: Seq<u8>) -> Result<Self, Error> {
        Ok(signed(le_value(bytes), 16) as i128)
    }

    fn read(bytes: &[u8]) -> (value: Result<Self, Error>) {
        let raw: u128 = read_le(bytes);
        proof {
            lemma_span_values();
            lemma_le_value_bound(bytes@);
        }
        Ok(
            if raw < 0x80000000000000000000000000000000 {
                raw as i128
            } else {
                (raw - 0x80000000000000000000000000000000) as i128 + i128::MIN
            },
        )
    }

    proof fn plain(self) {
    }
}

impl Fixed for bool {
    open spec fn width() -> nat {
        1
    }

    fn size() -> (n: usize) {
        1
    }

    /// The lowest bit of the byte.
    open spec fn spelled(bytes: Seq<u8>) -> Result<Self, Error> {
        Ok(bytes[0] % 2 == 1)
    }

    fn read(bytes: &[u8]) -> (value: Result<Self, Error>) {
        Ok(bytes[0] % 2 == 1)
    }

    proof fn plain(self) {
    }
}

/// Whether `code` is a Unicode scalar value.
pub open spec fn scalar(code: nat) -> bool {
    code < 0xD800 || 0xE000 <= code < 0x11_0000
}

/// The code that stands for an absent character: the first past the last scalar value.
pub const NO_CHAR: u32 = 0x11_0000;

/// [`char::from_u32`] converts exactly the Unicode scalar values.
pub assume_specification[ char::from_u32 ](code: u32) -> (converted: Option<char>)
    ensures
        converted is Some <==> scalar(code as nat),
        converted matches Some(c) ==> c == code as char,
;

impl Fixed for char {
    open spec fn width() -> nat {
        4
    }

    fn size() -> (n: usize) {
        4
    }

    open spec fn spelled(bytes: Seq<u8>) -> Result<Self, Error> {
        if scalar(le_value(bytes)) {
            Ok(le_value(bytes) as char)
        } else {
            Err(Error::Utf8)
        }
    }

    fn read(bytes: &[u8]) -> (value: Result<Self, Error>) {
        proof {
            lemma_span_values();
            lemma_le_value_bound(bytes@);
        }
        match char::from_u32(read_le(bytes) as u32) {
            Some(c) => Ok(c),
            None => Err(Error::Utf8),
        }
    }

    proof fn plain(self) {
    }
}

impl Fixed for Option<char> {
    open spec fn width() -> nat {
        4
    }

    fn size() -> (n: usize) {
        4
    }

    open spec fn spelled(bytes: Seq<u8>) -> Result<Self, Error> {
        if le_value(bytes) == NO_CHAR {
            Ok(None)
        } else {
            match char::spelled(bytes) {
                Ok(c) => Ok(Some(c)),
                Err(e) => Err(e),
            }
        }
    }

    fn read(bytes: &[u8]) -> (value: Result<Self, Error>) {
        if read_le(bytes) == NO_CHAR as u128 {
            Ok(None)
        } else {
            match char::read(bytes) {
                Ok(c) => Ok(Some(c)),
                Err(e) => Err(e),
            }
        }
    }

    proof fn plain(self) {
    }
}

impl<T: Fixed + Integer> Fixed for NonZero<T> {
    open spec fn width() -> nat {
        T::width()
    }

    fn size() -> (n: usize) {
        T::size()
    }

    open spec fn spelled(bytes: Seq<u8>) -> Result<Self, Error> {
        match T::spelled(bytes) {
            Ok(v) => if v.value() == 0 {
                Err(Error::Number(NumberError::Zero))
            } else {
                Ok(NonZero::of(v))
            },
            Err(e) => Err(e),
        }
    }

    fn read(bytes: &[u8]) -> (value: Result<Self, Error>) {
        match T::read(bytes) {
            Ok(v) => match NonZero::new(v) {
                Some(n) => Ok(n),
                None => Err(Error::Number(NumberError::Zero)),
            },
            Err(e) => Err(e),
        }
    }

    proof fn plain(self) {
    }
}

impl<T: Fixed + Integer> Fixed for Option<NonZero<T>> {
    open spec fn width() -> nat {
        T::width()
    }

    fn size() -> (n: usize) {
        T::size()
    }

    /// The all-zero pattern stands for an absent value.
    open spec fn spelled(bytes: Seq<u8>) -> Result<Self, Error> {
        match T::spelled(bytes) {
            Ok(v) => if v.value() == 0 {
                Ok(None)
            } else {
                Ok(Some(NonZero::of(v)))
            },
            Err(e) => Err(e),
        }
    }

    fn read(bytes: &[u8]) -> (value: Result<Self, Error>) {
        match T::read(bytes) {
            Ok(v) => Ok(NonZero::new(v)),
            Err(e) => Err(e),
        }
    }

    proof fn plain(self) {
    }
}

// ---------------------------------------------------------------- laws

/// A value of fixed width takes as many bytes as it has, and none of a source that is too short.
pub proof fn law_fixed_values_take_their_width<T: Fixed>(src: Seq<u8>)
    ensures
        T::parse(src).1 == (if src.len() < T::width() {
            src
        } else {
            src.skip(T::width() as int)
        }),
        src.len() < T::width() ==> T::parse(src).0 == Err::<T, Error>(
            Error::Truncated { expected: T::width() as usize, actual: src.len() as usize },
        ),
        src.len() >= T::width() ==> T::parse(src).0 == T::parse(src.take(T::width() as int)).0,
{
    if src.len() >= T::width() {
        let head = src.take(T::width() as int);
        assert(head.take(T::width() as int) =~= head);
    }
}

/// The widths of the values.
pub proof fn law_widths()
    ensures
        u8::width() == 1,
        i8::width() == 1,
        bool::width() == 1,
        u16::width() == 2,
        i16::width() == 2,
        u32::width() == 4,
        i32::width() == 4,
        char::width() == 4,
        Option::<char>::width() == 4,
        u64::width() == 8,
        i64::width() == 8,
        u128::width() == 16,
        i128::width() == 16,
        NO_CHAR == 0x11_0000,
{
}

/// Bytes are text if and only if they encode it, and they are then the text that they encode.
pub proof fn law_text_is_what_its_bytes_encode<'d>(
    bytes: &'d [u8],
    borrowed: Result<&'d str, Error>,
)
    requires
        call_ensures(to_text, (bytes,), borrowed),
    ensures
        borrowed matches Ok(t) ==> encode_utf8(t@) == bytes@,
        borrowed is Ok <==> exists|chars: Seq<char>| #[trigger] encode_utf8(chars) == bytes@,
        borrowed matches Err(e) ==> e is Utf8,
{
    if valid_utf8(bytes@) {
        vstd::utf8::decode_utf8_encode_utf8(bytes@);
        assert(encode_utf8(decode_utf8(bytes@)) == bytes@);
    }
    if exists|chars: Seq<char>| #[trigger] encode_utf8(chars) == bytes@ {
        let chars = choose|chars: Seq<char>| #[trigger] encode_utf8(chars) == bytes@;
        vstd::utf8::encode_utf8_valid_utf8(chars);
    }
}

/// A truth value is the lowest bit of its byte.
pub proof fn law_truth_values_are_lowest_bits(byte: u8)
    ensures
        bool::spelled(seq![byte]) == Ok::<bool, Error>(byte & 1 == 1),
{
    assert((byte & 1 == 1) == (byte % 2 == 1)) by (bit_vector);
}

/// Bytes and text take the whole of their source.
pub proof fn law_bytes_and_text_take_everything(src: Seq<u8>)
    ensures
        <&[u8] as Deserialize>::parse(src) == (Ok::<Seq<u8>, Error>(src), Seq::<u8>::empty()),
        <String as Deserialize>::parse(src).1 == Seq::<u8>::empty(),
        <String as Deserialize>::parse(src).0 matches Ok(t) ==> encode_utf8(t) == src,
        <String as Deserialize>::parse(src).0 is Ok <==> valid_utf8(src),
{
    if valid_utf8(src) {
        vstd::utf8::decode_utf8_encode_utf8(src);
    }
}

} // verus!
