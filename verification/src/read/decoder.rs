//! Stateful sources from which items are decoded one by one.

use crate::io::deserialize::{text, to_text, Deserialize};
use crate::io::error::{viewed, Error, NumberError};
use crate::io::region::{index, sized, take_sized, to_index};
use crate::read::decode::Decode;
use core::marker::PhantomData;
use vstd::arithmetic::power2::{lemma2_to64, pow2};
use vstd::prelude::*;

verus! {

/// The outcome of pulling one item, with the item taken by its deep view.
pub open spec fn pulled<T: DeepView>(item: Option<Result<T, Error>>) -> Option<Result<T::V, Error>> {
    match item {
        Some(item) => Some(viewed(item)),
        None => None,
    }
}

/// A position in a stream of items.
pub trait Cursor<I: DeepView>: Sized {
    /// What the items still to come depend on.
    type State;

    /// What the items still to come depend on.
    spec fn state(&self) -> Self::State;

    /// The item that a pull gives, if any, and the state after it.
    spec fn step(state: Self::State) -> (Option<Result<I::V, Error>>, Self::State);

    /// Pulls one item.
    fn next(&mut self) -> (item: Option<Result<I, Error>>)
        ensures
            pulled(item) == Self::step(old(self).state()).0,
            final(self).state() == Self::step(old(self).state()).1,
    ;
}

/// What the first pull gives, where there is one.
pub open spec fn first_of<I: DeepView, C: Cursor<I>>(state: C::State) -> Result<I::V, Error> {
    match C::step(state).0 {
        Some(item) => item,
        None => Err(Error::Truncated { expected: 1, actual: 0 }),
    }
}

/// Pulls the first item.
pub fn first<I: DeepView, C: Cursor<I>>(cursor: C) -> (item: Result<I, Error>)
    ensures
        viewed(item) == first_of::<I, C>(cursor.state()),
{
    let mut cursor: C = cursor;
    match cursor.next() {
        Some(item) => item,
        None => Err(Error::Truncated { expected: 1, actual: 0 }),
    }
}

/// A source of items of one type.
pub trait Decoder<'d, I: DeepView>: Deserialize<'d> {
    /// The stream of items.
    type Cursor: Cursor<I>;

    /// The state in which the stream starts.
    spec fn started(src: Self::V) -> Result<<Self::Cursor as Cursor<I>>::State, Error>;

    /// The only item of a source that holds exactly one.
    spec fn single(src: Self::V) -> Result<I::V, Error>;

    /// Starts the stream. An error in constructing it surfaces here, one in an item when that item is
    /// pulled.
    fn iter(self) -> (cursor: Result<Self::Cursor, Error>)
        ensures
            match cursor {
                Ok(c) => Self::started(self.deep_view()) == Ok::<_, Error>(c.state()),
                Err(e) => Self::started(self.deep_view()) == Err::<
                    <Self::Cursor as Cursor<I>>::State,
                    Error,
                >(e),
            },
    ;

    /// Decodes exactly one item.
    fn one(self) -> (item: Result<I, Error>)
        ensures
            viewed(item) == Self::single(self.deep_view()),
    ;
}

/// A source that can hold nothing.
pub trait Empty: DeepView + Sized {
    /// The source that holds nothing.
    spec fn nothing() -> Self::V;

    /// The source that holds nothing.
    fn empty() -> (source: Self)
        ensures
            source.deep_view() == Self::nothing(),
    ;
}

// ---------------------------------------------------------------- fixed-width items

impl<'d, I: Deserialize<'d>> Cursor<I> for &'d [u8] {
    type State = Seq<u8>;

    open spec fn state(&self) -> Seq<u8> {
        self@
    }

    open spec fn step(state: Seq<u8>) -> (Option<Result<I::V, Error>>, Seq<u8>) {
        if state.len() == 0 {
            (None, state)
        } else {
            (Some(I::parse(state).0), I::parse(state).1)
        }
    }

    fn next(&mut self) -> (item: Option<Result<I, Error>>) {
        if self.len() == 0 {
            None
        } else {
            Some(I::deserialize(self))
        }
    }
}

impl<'d, I: Deserialize<'d>> Decoder<'d, I> for &'d [u8] {
    type Cursor = &'d [u8];

    open spec fn started(src: Seq<u8>) -> Result<Seq<u8>, Error> {
        Ok(src)
    }

    open spec fn single(src: Seq<u8>) -> Result<I::V, Error> {
        I::parse(src).0
    }

    fn iter(self) -> (cursor: Result<&'d [u8], Error>) {
        assert(self.deep_view() =~= self@);
        Ok(self)
    }

    fn one(self) -> (item: Result<I, Error>) {
        assert(self.deep_view() =~= self@);
        let mut src: &'d [u8] = self;
        I::deserialize(&mut src)
    }
}

impl<'d> Empty for &'d [u8] {
    open spec fn nothing() -> Seq<u8> {
        Seq::empty()
    }

    fn empty() -> (source: &'d [u8]) {
        let source: &'d [u8] = &[];
        assert(source.deep_view() =~= Seq::<u8>::empty());
        source
    }
}

// ---------------------------------------------------------------- bit-packed items

/// The bit at place `i` of `byte`, counted from the least significant one.
pub open spec fn bit(byte: u8, i: nat) -> bool {
    (byte >> (i as u8)) & 1 == 1
}

/// The bits of `bytes`, each byte from its least significant bit on.
pub open spec fn lsb(bytes: Seq<u8>) -> Seq<bool> {
    Seq::new(8 * bytes.len(), |i: int| bit(bytes[i / 8], (i % 8) as nat))
}

/// Reads one bit of a byte, counted from the least significant one.
fn lsb_bit(byte: u8, i: usize) -> (value: bool)
    requires
        i < 8,
    ensures
        value == bit(byte, i as nat),
{
    (byte >> (i as u8)) & 1 == 1
}

/// Bit-packed truth values.
#[derive(Clone, Copy)]
pub struct Bits<'d> {
    /// The bytes that hold the bits.
    pub bytes: &'d [u8],
}

impl<'d> Bits<'d> {
    /// The bit at place `i`, if there is one.
    pub fn get(&self, i: usize) -> (value: Option<bool>)
        ensures
            value == (if i < lsb(self.bytes@).len() {
                Some(lsb(self.bytes@)[i as int])
            } else {
                None
            }),
    {
        if i / 8 < self.bytes.len() {
            Some(lsb_bit(self.bytes[i / 8], i % 8))
        } else {
            None
        }
    }
}

impl<'d> DeepView for Bits<'d> {
    type V = Seq<bool>;

    open spec fn deep_view(&self) -> Seq<bool> {
        lsb(self.bytes@)
    }
}

impl<'d> Deserialize<'d> for Bits<'d> {
    /// Every bit of the whole source.
    open spec fn parse(src: Seq<u8>) -> (Result<Seq<bool>, Error>, Seq<u8>) {
        (Ok(lsb(src)), Seq::empty())
    }

    fn deserialize(src: &mut &'d [u8]) -> (value: Result<Self, Error>) {
        let bytes: &'d [u8] = *src;
        let (_, tail) = bytes.split_at(bytes.len());
        *src = tail;
        assert(tail@ =~= Seq::<u8>::empty());
        Ok(Bits { bytes })
    }
}

impl<'d> Empty for Bits<'d> {
    open spec fn nothing() -> Seq<bool> {
        Seq::empty()
    }

    fn empty() -> (source: Bits<'d>) {
        let bytes: &'d [u8] = &[];
        let source = Bits { bytes };
        assert(source.deep_view() =~= Seq::<bool>::empty());
        source
    }
}

/// A position among bit-packed truth values.
pub struct BitCursor<'d> {
    bytes: &'d [u8],
    at: usize,
}

impl<'d> BitCursor<'d> {
    #[verifier::type_invariant]
    spec fn valid(self) -> bool {
        self.at < 8
    }

    /// The bits still to come.
    pub closed spec fn rest(self) -> Seq<bool> {
        if self.bytes@.len() == 0 {
            Seq::empty()
        } else {
            lsb(self.bytes@).skip(self.at as int)
        }
    }

    /// The first of the bits.
    pub fn new(bits: Bits<'d>) -> (cursor: Self)
        ensures
            cursor.rest() == bits.deep_view(),
    {
        let cursor = BitCursor { bytes: bits.bytes, at: 0 };
        assert(cursor.rest() =~= lsb(bits.bytes@));
        cursor
    }

    /// Pulls one bit.
    pub fn pull(&mut self) -> (value: Option<bool>)
        ensures
            old(self).rest().len() == 0 ==> value is None && final(self).rest() == old(self).rest(),
            old(self).rest().len() > 0 ==> value == Some(old(self).rest()[0]) && final(self).rest()
                == old(self).rest().skip(1),
    {
        proof {
            use_type_invariant(&*self);
        }
        let ghost before = self.rest();
        let bytes: &'d [u8] = self.bytes;
        let at: usize = self.at;
        if bytes.len() == 0 {
            return None;
        }
        let value: bool = lsb_bit(bytes[0], at);
        assert(value == before[0]);
        if at < 7 {
            *self = BitCursor { bytes, at: at + 1 };
            assert(self.rest() =~= before.skip(1));
        } else {
            let (_, tail) = bytes.split_at(1);
            *self = BitCursor { bytes: tail, at: 0 };
            assert forall|i: int| 0 <= i < 8 * tail@.len() implies lsb(tail@)[i]
                == #[trigger] before.skip(1)[i] by {
                assert((i + 8) / 8 == i / 8 + 1);
                assert((i + 8) % 8 == i % 8);
            }
            assert(self.rest() =~= before.skip(1));
        }
        Some(value)
    }
}

impl<'d> Cursor<bool> for BitCursor<'d> {
    type State = Seq<bool>;

    open spec fn state(&self) -> Seq<bool> {
        self.rest()
    }

    open spec fn step(state: Seq<bool>) -> (Option<Result<bool, Error>>, Seq<bool>) {
        if state.len() == 0 {
            (None, state)
        } else {
            (Some(Ok(state[0])), state.skip(1))
        }
    }

    fn next(&mut self) -> (item: Option<Result<bool, Error>>) {
        match self.pull() {
            Some(value) => Some(Ok(value)),
            None => None,
        }
    }
}

impl<'d> Decoder<'d, bool> for Bits<'d> {
    type Cursor = BitCursor<'d>;

    open spec fn started(src: Seq<bool>) -> Result<Seq<bool>, Error> {
        Ok(src)
    }

    open spec fn single(src: Seq<bool>) -> Result<bool, Error> {
        if src.len() == 0 {
            Err(Error::Truncated { expected: 1, actual: 0 })
        } else {
            Ok(src[0])
        }
    }

    fn iter(self) -> (cursor: Result<BitCursor<'d>, Error>) {
        Ok(BitCursor::new(self))
    }

    fn one(self) -> (item: Result<bool, Error>) {
        first(BitCursor::new(self))
    }
}

// ---------------------------------------------------------------- optional items with a validity mask

/// Paired validity and value sub-buffers of optional items.
pub struct OptBitVec<'d, I: Decode<'d>> {
    /// One bit per item, set where the item is present.
    pub mask: Bits<'d>,
    /// The present items.
    pub data: I::Src,
}

impl<'d, I: Decode<'d>> DeepView for OptBitVec<'d, I> {
    type V = (Seq<bool>, <I::Src as DeepView>::V);

    open spec fn deep_view(&self) -> Self::V {
        (self.mask.deep_view(), self.data.deep_view())
    }
}

impl<'d, I: Decode<'d>> Deserialize<'d> for OptBitVec<'d, I> where I::Src: Empty {
    /// A length-prefixed mask and, unless the source ends there, a length-prefixed value region.
    open spec fn parse(src: Seq<u8>) -> (Result<Self::V, Error>, Seq<u8>) {
        match sized(src) {
            (Err(e), rest) => (Err(e), rest),
            (Ok(mask), rest) => if rest.len() == 0 {
                (Ok((lsb(mask), I::Src::nothing())), rest)
            } else {
                match sized(rest) {
                    (Err(e), tail) => (Err(e), tail),
                    (Ok(region), tail) => match I::Src::parse(region).0 {
                        Err(e) => (Err(e), tail),
                        Ok(data) => (Ok((lsb(mask), data)), tail),
                    },
                }
            },
        }
    }

    fn deserialize(src: &mut &'d [u8]) -> (value: Result<Self, Error>) {
        let mask: Bits<'d> = match take_sized(src) {
            Ok(bytes) => Bits { bytes },
            Err(e) => return Err(e),
        };
        if src.len() == 0 {
            return Ok(OptBitVec { mask, data: I::Src::empty() });
        }
        let mut region: &'d [u8] = match take_sized(src) {
            Ok(region) => region,
            Err(e) => return Err(e),
        };
        match I::Src::deserialize(&mut region) {
            Ok(data) => Ok(OptBitVec { mask, data }),
            Err(e) => Err(e),
        }
    }
}

/// A position among optional items with a validity mask.
pub struct OptCursor<'d, I: Decode<'d>> {
    mask: BitCursor<'d>,
    data: <I::Src as Decoder<'d, I>>::Cursor,
}

/// What the optional items still to come depend on.
pub struct OptState<S> {
    /// The validity of the items still to come.
    pub mask: Seq<bool>,
    /// The state of the stream of present items.
    pub data: S,
}

impl<'d, I: Decode<'d>> Cursor<Option<I>> for OptCursor<'d, I> {
    type State = OptState<<<I::Src as Decoder<'d, I>>::Cursor as Cursor<I>>::State>;

    closed spec fn state(&self) -> Self::State {
        OptState { mask: self.mask.rest(), data: self.data.state() }
    }

    open spec fn step(state: Self::State) -> (
        Option<Result<Option<I::V>, Error>>,
        Self::State,
    ) {
        if state.mask.len() == 0 {
            (None, state)
        } else if state.mask[0] {
            let (item, data) = <I::Src as Decoder<'d, I>>::Cursor::step(state.data);
            let after = OptState { mask: state.mask.skip(1), data };
            match item {
                None => (None, after),
                Some(Ok(v)) => (Some(Ok(Some(v))), after),
                Some(Err(e)) => (Some(Err(e)), after),
            }
        } else {
            (Some(Ok(None)), OptState { mask: state.mask.skip(1), data: state.data })
        }
    }

    fn next(&mut self) -> (item: Option<Result<Option<I>, Error>>) {
        match self.mask.pull() {
            None => None,
            Some(true) => match self.data.next() {
                None => None,
                Some(Ok(item)) => Some(Ok(Some(item))),
                Some(Err(e)) => Some(Err(e)),
            },
            Some(false) => Some(Ok(None)),
        }
    }
}

impl<'d, I: Decode<'d>> Decoder<'d, Option<I>> for OptBitVec<'d, I> where I::Src: Empty {
    type Cursor = OptCursor<'d, I>;

    open spec fn started(src: Self::V) -> Result<<OptCursor<'d, I> as Cursor<Option<I>>>::State, Error> {
        match I::Src::started(src.1) {
            Ok(data) => Ok(OptState { mask: src.0, data }),
            Err(e) => Err(e),
        }
    }

    /// The value sub-buffer is not read where the mask says that the item is absent.
    open spec fn single(src: Self::V) -> Result<Option<I::V>, Error> {
        match Bits::single(src.0) {
            Err(e) => Err(e),
            Ok(false) => Ok(None),
            Ok(true) => match I::Src::single(src.1) {
                Ok(v) => Ok(Some(v)),
                Err(e) => Err(e),
            },
        }
    }

    fn iter(self) -> (cursor: Result<OptCursor<'d, I>, Error>) {
        match self.data.iter() {
            Ok(data) => Ok(OptCursor { mask: BitCursor::new(self.mask), data }),
            Err(e) => Err(e),
        }
    }

    fn one(self) -> (item: Result<Option<I>, Error>) {
        match self.mask.one() {
            Err(e) => Err(e),
            Ok(false) => Ok(None),
            Ok(true) => match self.data.one() {
                Ok(item) => Ok(Some(item)),
                Err(e) => Err(e),
            },
        }
    }
}

// ---------------------------------------------------------------- optional items in place

/// Optional items of a type with an unused bit pattern, which stands for absence in place.
pub struct OptInSitu<'d> {
    /// The items.
    pub data: &'d [u8],
}

impl<'d> DeepView for OptInSitu<'d> {
    type V = Seq<u8>;

    open spec fn deep_view(&self) -> Seq<u8> {
        self.data@
    }
}

impl<'d> Deserialize<'d> for OptInSitu<'d> {
    /// The whole source.
    open spec fn parse(src: Seq<u8>) -> (Result<Seq<u8>, Error>, Seq<u8>) {
        (Ok(src), Seq::empty())
    }

    fn deserialize(src: &mut &'d [u8]) -> (value: Result<Self, Error>) {
        let data: &'d [u8] = *src;
        let (_, tail) = data.split_at(data.len());
        *src = tail;
        assert(tail@ =~= Seq::<u8>::empty());
        Ok(OptInSitu { data })
    }
}

impl<'d, I: DeepView> Decoder<'d, Option<I>> for OptInSitu<'d> where Option<I>: Deserialize<'d> {
    type Cursor = &'d [u8];

    open spec fn started(src: Seq<u8>) -> Result<Seq<u8>, Error> {
        Ok(src)
    }

    open spec fn single(src: Seq<u8>) -> Result<<Option<I> as DeepView>::V, Error> {
        Option::<I>::parse(src).0
    }

    fn iter(self) -> (cursor: Result<&'d [u8], Error>) {
        Ok(self.data)
    }

    fn one(self) -> (item: Result<Option<I>, Error>) {
        let mut src: &'d [u8] = self.data;
        Option::<I>::deserialize(&mut src)
    }
}

// ---------------------------------------------------------------- items of varying length

/// Paired offset and value sub-buffers of items of varying length.
pub struct Sequence<'d> {
    /// One little-endian `u64` per item: where it ends, counted over all items, or the largest `u64`
    /// where the item is absent.
    pub ends: &'d [u8],
    /// The contents of the present items, one after the other.
    pub data: &'d [u8],
}

impl<'d> DeepView for Sequence<'d> {
    type V = (Seq<u8>, Seq<u8>);

    open spec fn deep_view(&self) -> Self::V {
        (self.ends@, self.data@)
    }
}

impl<'d> Deserialize<'d> for Sequence<'d> {
    /// A length-prefixed region of ends and, unless the source ends there, a length-prefixed data
    /// region.
    open spec fn parse(src: Seq<u8>) -> (Result<Self::V, Error>, Seq<u8>) {
        match sized(src) {
            (Err(e), rest) => (Err(e), rest),
            (Ok(ends), rest) => if rest.len() == 0 {
                (Ok((ends, Seq::empty())), rest)
            } else {
                match sized(rest) {
                    (Err(e), tail) => (Err(e), tail),
                    (Ok(data), tail) => (Ok((ends, data)), tail),
                }
            },
        }
    }

    fn deserialize(src: &mut &'d [u8]) -> (value: Result<Self, Error>) {
        let ends: &'d [u8] = match take_sized(src) {
            Ok(ends) => ends,
            Err(e) => return Err(e),
        };
        if src.len() == 0 {
            let data: &'d [u8] = &[];
            assert(data@ =~= Seq::<u8>::empty());
            return Ok(Sequence { ends, data });
        }
        match take_sized(src) {
            Ok(data) => Ok(Sequence { ends, data }),
            Err(e) => Err(e),
        }
    }
}

/// What the texts still to come depend on.
pub struct TextState {
    /// The ends of the items still to come.
    pub ends: Seq<u8>,
    /// The contents still to come.
    pub data: Seq<u8>,
    /// Where the contents still to come start, counted over all items.
    pub start: int,
}

/// The text that ends at `end`, and the state after it.
///
/// An end that is before the start, or that lies past the contents, gives an error and leaves the
/// contents where they are.
pub open spec fn cut_text(state: TextState, end: u64) -> (Result<Seq<char>, Error>, TextState) {
    match index(end) {
        Err(e) => (Err(e), state),
        Ok(end) => if end < state.start {
            (Err(Error::Number(NumberError::Zero)), state)
        } else {
            let length = end - state.start;
            if state.data.len() < length {
                (
                    Err(
                        Error::Truncated {
                            expected: length as usize,
                            actual: state.data.len() as usize,
                        },
                    ),
                    state,
                )
            } else {
                (
                    text(state.data.take(length)),
                    TextState {
                        ends: state.ends,
                        data: state.data.skip(length),
                        start: end as int,
                    },
                )
            }
        },
    }
}

/// A position among texts.
pub struct TextCursor<'d> {
    ends: &'d [u8],
    data: &'d [u8],
    start: usize,
}

impl<'d> TextCursor<'d> {
    /// What the texts still to come depend on.
    pub closed spec fn rest(self) -> TextState {
        TextState { ends: self.ends@, data: self.data@, start: self.start as int }
    }

    /// The first text.
    pub fn new(src: Sequence<'d>) -> (cursor: Self)
        ensures
            cursor.rest() == (TextState { ends: src.ends@, data: src.data@, start: 0 }),
    {
        TextCursor { ends: src.ends, data: src.data, start: 0 }
    }

    /// Pulls the end of the next item, where there is one.
    fn pull_end(&mut self) -> (end: Option<Result<u64, Error>>)
        ensures
            final(self).rest().data == old(self).rest().data,
            final(self).rest().start == old(self).rest().start,
            old(self).rest().ends.len() == 0 ==> end is None && final(self).rest().ends == old(
                self,
            ).rest().ends,
            old(self).rest().ends.len() > 0 ==> end is Some && viewed(end->0) == u64::parse(
                old(self).rest().ends,
            ).0 && final(self).rest().ends == u64::parse(old(self).rest().ends).1,
    {
        if self.ends.len() == 0 {
            None
        } else {
            Some(u64::deserialize(&mut self.ends))
        }
    }

    /// Takes the text that ends at `end`.
    fn cut(&mut self, end: u64) -> (item: Result<&'d str, Error>)
        ensures
            viewed(item) == cut_text(old(self).rest(), end).0,
            final(self).rest() == cut_text(old(self).rest(), end).1,
    {
        let end: usize = match to_index(end) {
            Ok(end) => end,
            Err(e) => return Err(e),
        };
        if end < self.start {
            return Err(Error::Number(NumberError::Zero));
        }
        let length: usize = end - self.start;
        let data: &'d [u8] = self.data;
        if data.len() < length {
            return Err(Error::Truncated { expected: length, actual: data.len() });
        }
        let (head, tail) = data.split_at(length);
        proof {
            assert(head@ =~= data@.take(length as int));
            assert(tail@ =~= data@.skip(length as int));
        }
        self.data = tail;
        self.start = end;
        to_text(head)
    }
}

/// The step of a stream of texts.
pub open spec fn text_step(state: TextState) -> (Option<Result<Seq<char>, Error>>, TextState) {
    if state.ends.len() == 0 {
        (None, state)
    } else {
        let (end, ends) = u64::parse(state.ends);
        let after = TextState { ends, data: state.data, start: state.start };
        match end {
            Err(e) => (Some(Err(e)), after),
            Ok(end) => (Some(cut_text(after, end).0), cut_text(after, end).1),
        }
    }
}

/// The step of a stream of optional texts.
pub open spec fn optional_text_step(state: TextState) -> (
    Option<Result<Option<Seq<char>>, Error>>,
    TextState,
) {
    if state.ends.len() == 0 {
        (None, state)
    } else {
        let (end, ends) = u64::parse(state.ends);
        let after = TextState { ends, data: state.data, start: state.start };
        match end {
            Err(e) => (Some(Err(e)), after),
            Ok(end) => if end == u64::MAX {
                (Some(Ok(None)), after)
            } else {
                match cut_text(after, end) {
                    (Ok(t), then) => (Some(Ok(Some(t))), then),
                    (Err(e), then) => (Some(Err(e)), then),
                }
            },
        }
    }
}

impl<'d> Cursor<&'d str> for TextCursor<'d> {
    type State = TextState;

    open spec fn state(&self) -> TextState {
        self.rest()
    }

    open spec fn step(state: TextState) -> (Option<Result<Seq<char>, Error>>, TextState) {
        text_step(state)
    }

    fn next(&mut self) -> (item: Option<Result<&'d str, Error>>) {
        match self.pull_end() {
            None => None,
            Some(Err(e)) => Some(Err(e)),
            Some(Ok(end)) => Some(self.cut(end)),
        }
    }
}

impl<'d> Cursor<String> for TextCursor<'d> {
    type State = TextState;

    open spec fn state(&self) -> TextState {
        self.rest()
    }

    open spec fn step(state: TextState) -> (Option<Result<Seq<char>, Error>>, TextState) {
        text_step(state)
    }

    fn next(&mut self) -> (item: Option<Result<String, Error>>) {
        match self.pull_end() {
            None => None,
            Some(Err(e)) => Some(Err(e)),
            Some(Ok(end)) => match self.cut(end) {
                Ok(t) => Some(Ok(t.to_owned())),
                Err(e) => Some(Err(e)),
            },
        }
    }
}

impl<'d> Cursor<Option<String>> for TextCursor<'d> {
    type State = TextState;

    open spec fn state(&self) -> TextState {
        self.rest()
    }

    open spec fn step(state: TextState) -> (Option<Result<Option<Seq<char>>, Error>>, TextState) {
        optional_text_step(state)
    }

    fn next(&mut self) -> (item: Option<Result<Option<String>, Error>>) {
        match self.pull_end() {
            None => None,
            Some(Err(e)) => Some(Err(e)),
            Some(Ok(end)) => if end == u64::MAX {
                Some(Ok(None))
            } else {
                match self.cut(end) {
                    Ok(t) => Some(Ok(Some(t.to_owned()))),
                    Err(e) => Some(Err(e)),
                }
            },
        }
    }
}

impl<'d> Decoder<'d, &'d str> for Sequence<'d> {
    type Cursor = TextCursor<'d>;

    open spec fn started(src: Self::V) -> Result<TextState, Error> {
        Ok(TextState { ends: src.0, data: src.1, start: 0 })
    }

    open spec fn single(src: Self::V) -> Result<Seq<char>, Error> {
        first_of::<&'d str, TextCursor<'d>>(TextState { ends: src.0, data: src.1, start: 0 })
    }

    fn iter(self) -> (cursor: Result<TextCursor<'d>, Error>) {
        Ok(TextCursor::new(self))
    }

    fn one(self) -> (item: Result<&'d str, Error>) {
        first(TextCursor::new(self))
    }
}

impl<'d> Decoder<'d, String> for Sequence<'d> {
    type Cursor = TextCursor<'d>;

    open spec fn started(src: Self::V) -> Result<TextState, Error> {
        Ok(TextState { ends: src.0, data: src.1, start: 0 })
    }

    open spec fn single(src: Self::V) -> Result<Seq<char>, Error> {
        first_of::<String, TextCursor<'d>>(TextState { ends: src.0, data: src.1, start: 0 })
    }

    fn iter(self) -> (cursor: Result<TextCursor<'d>, Error>) {
        Ok(TextCursor::new(self))
    }

    fn one(self) -> (item: Result<String, Error>) {
        first(TextCursor::new(self))
    }
}

impl<'d> Decoder<'d, Option<String>> for Sequence<'d> {
    type Cursor = TextCursor<'d>;

    open spec fn started(src: Self::V) -> Result<TextState, Error> {
        Ok(TextState { ends: src.0, data: src.1, start: 0 })
    }

    open spec fn single(src: Self::V) -> Result<Option<Seq<char>>, Error> {
        first_of::<Option<String>, TextCursor<'d>>(TextState { ends: src.0, data: src.1, start: 0 })
    }

    fn iter(self) -> (cursor: Result<TextCursor<'d>, Error>) {
        Ok(TextCursor::new(self))
    }

    fn one(self) -> (item: Result<Option<String>, Error>) {
        first(TextCursor::new(self))
    }
}

/// What the lists still to come depend on.
pub struct ListState<S> {
    /// The ends of the lists still to come.
    pub ends: Seq<u8>,
    /// How many elements came before.
    pub start: int,
    /// The state of the stream of elements.
    pub data: S,
}

/// The elements that up to `n` pulls add to `found`, and the state after them. The first error ends
/// the pulls and is the result.
pub open spec fn gathered<I: DeepView, C: Cursor<I>>(
    found: Seq<I::V>,
    state: C::State,
    n: nat,
) -> (Result<Seq<I::V>, Error>, C::State)
    decreases n,
{
    if n == 0 {
        (Ok(found), state)
    } else {
        match C::step(state) {
            (None, after) => (Ok(found), after),
            (Some(Err(e)), after) => (Err(e), after),
            (Some(Ok(v)), after) => gathered::<I, C>(found.push(v), after, (n - 1) as nat),
        }
    }
}

/// Pulls up to `n` elements.
fn gather<I: DeepView, C: Cursor<I>>(cursor: &mut C, n: usize) -> (list: Result<Vec<I>, Error>)
    ensures
        viewed(list) == gathered::<I, C>(Seq::empty(), old(cursor).state(), n as nat).0,
        final(cursor).state() == gathered::<I, C>(
            Seq::empty(),
            old(cursor).state(),
            n as nat,
        ).1,
{
    let mut list: Vec<I> = Vec::new();
    let mut left: usize = n;
    assert(list.deep_view() =~= Seq::<I::V>::empty());
    while left > 0
        invariant
            gathered::<I, C>(Seq::empty(), old(cursor).state(), n as nat) == gathered::<I, C>(
                list.deep_view(),
                cursor.state(),
                left as nat,
            ),
        decreases left,
    {
        match cursor.next() {
            None => {
                return Ok(list);
            },
            Some(Err(e)) => {
                return Err(e);
            },
            Some(Ok(item)) => {
                let ghost before = list.deep_view();
                list.push(item);
                left -= 1;
                assert(list.deep_view() =~= before.push(item.deep_view()));
            },
        }
    }
    Ok(list)
}

/// A position among lists.
pub struct ListCursor<'d, I, C> {
    ends: &'d [u8],
    start: usize,
    data: C,
    item: PhantomData<I>,
}

impl<'d, I: DeepView, C: Cursor<I>> ListCursor<'d, I, C> {
    /// What the lists still to come depend on.
    pub closed spec fn rest(self) -> ListState<C::State> {
        ListState { ends: self.ends@, start: self.start as int, data: self.data.state() }
    }

    /// The first list.
    pub fn new(ends: &'d [u8], data: C) -> (cursor: Self)
        ensures
            cursor.rest() == (ListState { ends: ends@, start: 0, data: data.state() }),
    {
        ListCursor { ends, start: 0, data, item: PhantomData }
    }

    /// Pulls the end of the next item, where there is one.
    fn pull_end(&mut self) -> (end: Option<Result<u64, Error>>)
        ensures
            final(self).rest().data == old(self).rest().data,
            final(self).rest().start == old(self).rest().start,
            old(self).rest().ends.len() == 0 ==> end is None && final(self).rest().ends == old(
                self,
            ).rest().ends,
            old(self).rest().ends.len() > 0 ==> end is Some && viewed(end->0) == u64::parse(
                old(self).rest().ends,
            ).0 && final(self).rest().ends == u64::parse(old(self).rest().ends).1,
    {
        if self.ends.len() == 0 {
            None
        } else {
            Some(u64::deserialize(&mut self.ends))
        }
    }
}

/// The step of a stream of lists. A list takes as many elements as lie between the previous end and
/// its own, or as many of them as there are.
pub open spec fn list_step<I: DeepView, C: Cursor<I>>(state: ListState<C::State>) -> (
    Option<Result<Seq<I::V>, Error>>,
    ListState<C::State>,
) {
    if state.ends.len() == 0 {
        (None, state)
    } else {
        let (end, ends) = u64::parse(state.ends);
        let after = ListState { ends, start: state.start, data: state.data };
        match end {
            Err(e) => (Some(Err(e)), after),
            Ok(end) => match index(end) {
                Err(e) => (Some(Err(e)), after),
                Ok(end) => if end < state.start {
                    (Some(Err(Error::Number(NumberError::Zero))), after)
                } else {
                    let (list, data) = gathered::<I, C>(
                        Seq::empty(),
                        state.data,
                        (end - state.start) as nat,
                    );
                    (Some(list), ListState { ends, start: end as int, data })
                },
            },
        }
    }
}

/// The step of a stream of optional lists. An end before the previous one gives an empty list.
pub open spec fn optional_list_step<I: DeepView, C: Cursor<I>>(state: ListState<C::State>) -> (
    Option<Result<Option<Seq<I::V>>, Error>>,
    ListState<C::State>,
) {
    if state.ends.len() == 0 {
        (None, state)
    } else {
        let (end, ends) = u64::parse(state.ends);
        let after = ListState { ends, start: state.start, data: state.data };
        match end {
            Err(e) => (Some(Err(e)), after),
            Ok(end) => if end == u64::MAX {
                (Some(Ok(None)), after)
            } else {
                match index(end) {
                    Err(e) => (Some(Err(e)), after),
                    Ok(end) => {
                        let (list, data) = gathered::<I, C>(
                            Seq::empty(),
                            state.data,
                            if end < state.start {
                                0
                            } else {
                                (end - state.start) as nat
                            },
                        );
                        let then = ListState { ends, start: end as int, data };
                        match list {
                            Ok(l) => (Some(Ok(Some(l))), then),
                            Err(e) => (Some(Err(e)), then),
                        }
                    },
                }
            },
        }
    }
}

impl<'d, I: DeepView, C: Cursor<I>> Cursor<Vec<I>> for ListCursor<'d, I, C> {
    type State = ListState<C::State>;

    open spec fn state(&self) -> Self::State {
        self.rest()
    }

    open spec fn step(state: Self::State) -> (Option<Result<Seq<I::V>, Error>>, Self::State) {
        list_step::<I, C>(state)
    }

    fn next(&mut self) -> (item: Option<Result<Vec<I>, Error>>) {
        match self.pull_end() {
            None => None,
            Some(Err(e)) => Some(Err(e)),
            Some(Ok(end)) => {
                let end: usize = match to_index(end) {
                    Ok(end) => end,
                    Err(e) => return Some(Err(e)),
                };
                if end < self.start {
                    return Some(Err(Error::Number(NumberError::Zero)));
                }
                let n: usize = end - self.start;
                self.start = end;
                Some(gather(&mut self.data, n))
            },
        }
    }
}

impl<'d, I: DeepView, C: Cursor<I>> Cursor<Option<Vec<I>>> for ListCursor<'d, I, C> {
    type State = ListState<C::State>;

    open spec fn state(&self) -> Self::State {
        self.rest()
    }

    open spec fn step(state: Self::State) -> (
        Option<Result<Option<Seq<I::V>>, Error>>,
        Self::State,
    ) {
        optional_list_step::<I, C>(state)
    }

    fn next(&mut self) -> (item: Option<Result<Option<Vec<I>>, Error>>) {
        match self.pull_end() {
            None => None,
            Some(Err(e)) => Some(Err(e)),
            Some(Ok(end)) => {
                if end == u64::MAX {
                    return Some(Ok(None));
                }
                let end: usize = match to_index(end) {
                    Ok(end) => end,
                    Err(e) => return Some(Err(e)),
                };
                let n: usize = if end < self.start {
                    0
                } else {
                    end - self.start
                };
                self.start = end;
                match gather(&mut self.data, n) {
                    Ok(list) => Some(Ok(Some(list))),
                    Err(e) => Some(Err(e)),
                }
            },
        }
    }
}

/// The state in which a stream of lists starts.
pub open spec fn list_started<'d, I: Decode<'d>>(src: (Seq<u8>, Seq<u8>)) -> Result<
    ListState<<<I::Src as Decoder<'d, I>>::Cursor as Cursor<I>>::State>,
    Error,
> {
    match I::Src::parse(src.1).0 {
        Err(e) => Err(e),
        Ok(inner) => match I::Src::started(inner) {
            Err(e) => Err(e),
            Ok(data) => Ok(ListState { ends: src.0, start: 0, data }),
        },
    }
}

/// Starts a stream of lists.
fn start_list<'d, I: Decode<'d>>(src: Sequence<'d>) -> (cursor: Result<
    ListCursor<'d, I, <I::Src as Decoder<'d, I>>::Cursor>,
    Error,
>)
    ensures
        match cursor {
            Ok(c) => list_started::<I>(src.deep_view()) == Ok::<_, Error>(c.rest()),
            Err(e) => list_started::<I>(src.deep_view()) == Err::<
                ListState<<<I::Src as Decoder<'d, I>>::Cursor as Cursor<I>>::State>,
                Error,
            >(e),
        },
{
    let mut data: &'d [u8] = src.data;
    match I::Src::deserialize(&mut data) {
        Err(e) => Err(e),
        Ok(inner) => match inner.iter() {
            Err(e) => Err(e),
            Ok(elements) => Ok(ListCursor::new(src.ends, elements)),
        },
    }
}

impl<'d, I: Decode<'d>> Decoder<'d, Vec<I>> for Sequence<'d> {
    type Cursor = ListCursor<'d, I, <I::Src as Decoder<'d, I>>::Cursor>;

    open spec fn started(src: Self::V) -> Result<
        ListState<<<I::Src as Decoder<'d, I>>::Cursor as Cursor<I>>::State>,
        Error,
    > {
        list_started::<I>(src)
    }

    open spec fn single(src: Self::V) -> Result<Seq<I::V>, Error> {
        match list_started::<I>(src) {
            Err(e) => Err(e),
            Ok(state) => first_of::<
                Vec<I>,
                ListCursor<'d, I, <I::Src as Decoder<'d, I>>::Cursor>,
            >(state),
        }
    }

    fn iter(self) -> (cursor: Result<
        ListCursor<'d, I, <I::Src as Decoder<'d, I>>::Cursor>,
        Error,
    >) {
        start_list::<I>(self)
    }

    fn one(self) -> (item: Result<Vec<I>, Error>) {
        match start_list::<I>(self) {
            Err(e) => Err(e),
            Ok(cursor) => first(cursor),
        }
    }
}

impl<'d, I: Decode<'d>> Decoder<'d, Option<Vec<I>>> for Sequence<'d> {
    type Cursor = ListCursor<'d, I, <I::Src as Decoder<'d, I>>::Cursor>;

    open spec fn started(src: Self::V) -> Result<
        ListState<<<I::Src as Decoder<'d, I>>::Cursor as Cursor<I>>::State>,
        Error,
    > {
        list_started::<I>(src)
    }

    open spec fn single(src: Self::V) -> Result<Option<Seq<I::V>>, Error> {
        match list_started::<I>(src) {
            Err(e) => Err(e),
            Ok(state) => first_of::<
                Option<Vec<I>>,
                ListCursor<'d, I, <I::Src as Decoder<'d, I>>::Cursor>,
            >(state),
        }
    }

    fn iter(self) -> (cursor: Result<
        ListCursor<'d, I, <I::Src as Decoder<'d, I>>::Cursor>,
        Error,
    >) {
        start_list::<I>(self)
    }

    fn one(self) -> (item: Result<Option<Vec<I>>, Error>) {
        match start_list::<I>(self) {
            Err(e) => Err(e),
            Ok(cursor) => first(cursor),
        }
    }
}

// ---------------------------------------------------------------- laws

/// Each bit of a byte is one digit of the number that the byte is, from the lowest on.
pub proof fn law_bits_are_binary_digits(bytes: Seq<u8>, i: int)
    requires
        0 <= i < 8 * bytes.len(),
    ensures
        lsb(bytes).len() == 8 * bytes.len(),
        lsb(bytes)[i] == ((bytes[i / 8] as int / pow2((i % 8) as nat) as int) % 2 == 1),
{
    let (byte, k) = (bytes[i / 8], i % 8);
    lemma2_to64();
    assert((byte >> 0u8) & 1 == byte % 2) by (bit_vector);
    assert((byte >> 1u8) & 1 == (byte / 2) % 2) by (bit_vector);
    assert((byte >> 2u8) & 1 == (byte / 4) % 2) by (bit_vector);
    assert((byte >> 3u8) & 1 == (byte / 8) % 2) by (bit_vector);
    assert((byte >> 4u8) & 1 == (byte / 16) % 2) by (bit_vector);
    assert((byte >> 5u8) & 1 == (byte / 32) % 2) by (bit_vector);
    assert((byte >> 6u8) & 1 == (byte / 64) % 2) by (bit_vector);
    assert((byte >> 7u8) & 1 == (byte / 128) % 2) by (bit_vector);
    let digit = |d: int| (byte as int / d) % 2 == 1;
    assert(lsb(bytes)[i] == bit(byte, k as nat));
    if k == 0 {
        assert(bit(byte, 0) == digit(1));
    } else if k == 1 {
        assert(bit(byte, 1) == digit(2));
    } else if k == 2 {
        assert(bit(byte, 2) == digit(4));
    } else if k == 3 {
        assert(bit(byte, 3) == digit(8));
    } else if k == 4 {
        assert(bit(byte, 4) == digit(16));
    } else if k == 5 {
        assert(bit(byte, 5) == digit(32));
    } else if k == 6 {
        assert(bit(byte, 6) == digit(64));
    } else if k == 7 {
        assert(bit(byte, 7) == digit(128));
    }
}

/// A bit is read where there is one.
pub proof fn law_bits_are_read_where_they_are<'d>(bits: Bits<'d>, i: usize, value: Option<bool>)
    requires
        call_ensures(Bits::get, (&bits, i), value),
    ensures
        value is Some <==> i < 8 * bits.bytes@.len(),
        value matches Some(b) ==> b == lsb(bits.bytes@)[i as int],
{
}

/// A text whose end comes before its start, or past the contents, is an error, and reading goes on with the
/// next text from the same place.
pub proof fn law_texts_with_bad_ends_are_errors<'d>(state: TextState, end: u64)
    requires
        state.ends.len() >= 8,
        u64::parse(state.ends).0 == Ok::<u64, Error>(end),
        end <= usize::MAX,
        0 <= state.start,
    ensures
        ({
            let rest = TextState {
                ends: state.ends.skip(8),
                data: state.data,
                start: state.start,
            };
            let (owned, after) = <TextCursor<'d> as Cursor<String>>::step(state);
            let borrowed = <TextCursor<'d> as Cursor<&'d str>>::step(state);
            &&& borrowed == (owned, after)
            &&& end < state.start ==> owned == Some(
                Err::<Seq<char>, Error>(Error::Number(NumberError::Zero)),
            ) && after == rest
            &&& end > state.start + state.data.len() ==> owned == Some(
                Err::<Seq<char>, Error>(
                    Error::Truncated {
                        expected: (end - state.start) as usize,
                        actual: state.data.len() as usize,
                    },
                ),
            ) && after == rest
            &&& state.start <= end <= state.start + state.data.len() ==> owned == Some(
                text(state.data.take(end - state.start)),
            ) && after == (TextState {
                ends: state.ends.skip(8),
                data: state.data.skip(end - state.start),
                start: end as int,
            })
        }),
{
}

/// A list whose end comes before its start is an error, and otherwise takes as many elements as lie between
/// or as there are.
pub proof fn law_lists_with_bad_ends_are_errors<'d, I: DeepView, C: Cursor<I>>(
    state: ListState<C::State>,
    end: u64,
)
    requires
        state.ends.len() >= 8,
        u64::parse(state.ends).0 == Ok::<u64, Error>(end),
        end <= usize::MAX,
    ensures
        end < state.start ==> <ListCursor<'d, I, C> as Cursor<Vec<I>>>::step(state).0 == Some(
            Err::<Seq<I::V>, Error>(Error::Number(NumberError::Zero)),
        ),
        end >= state.start ==> (<ListCursor<'d, I, C> as Cursor<Vec<I>>>::step(state).0 matches Some(Ok(
            list,
        )) ==> list.len() <= end - state.start),
        <ListCursor<'d, I, C> as Cursor<Vec<I>>>::step(state).1.ends == state.ends.skip(8),
{
    if end >= state.start {
        lemma_gathered_bound::<I, C>(Seq::empty(), state.data, (end - state.start) as nat);
    }
}

/// No more elements are gathered than there are pulls.
proof fn lemma_gathered_bound<I: DeepView, C: Cursor<I>>(found: Seq<I::V>, state: C::State, n: nat)
    ensures
        gathered::<I, C>(found, state, n).0 matches Ok(list) ==> list.len() <= found.len() + n,
    decreases n,
{
    if n > 0 {
        if let (Some(Ok(v)), rest) = C::step(state) {
            lemma_gathered_bound::<I, C>(found.push(v), rest, (n - 1) as nat);
        }
    }
}

/// A source without items has no first one.
pub proof fn law_empty_sources_have_no_first_item<I: DeepView, C: Cursor<I>>(
    cursor: C,
    item: Result<I, Error>,
)
    requires
        call_ensures(first::<I, C>, (cursor,), item),
    ensures
        C::step(cursor.state()).0 is None ==> item == Err::<I, Error>(
            Error::Truncated { expected: 1, actual: 0 },
        ),
        C::step(cursor.state()).0 matches Some(Ok(v)) ==> item matches Ok(i) && i.deep_view() == v,
        C::step(cursor.state()).0 matches Some(Err(e)) ==> item == Err::<I, Error>(e),
{
}

/// An optional item is pulled by its bit: a clear one is an absent item and takes nothing, a set one takes the
/// next of the present items.
pub proof fn law_optional_items_are_pulled_by_their_bits<'d, I: Decode<'d>>(
    state: OptState<<<I::Src as Decoder<'d, I>>::Cursor as Cursor<I>>::State>,
)
    ensures
        ({
            let (item, after) = <OptCursor<'d, I> as Cursor<Option<I>>>::step(state);
            let (inner, rest) = <<I::Src as Decoder<'d, I>>::Cursor as Cursor<I>>::step(state.data);
            &&& state.mask.len() == 0 ==> item is None
            &&& state.mask.len() > 0 ==> after.mask == state.mask.skip(1)
            &&& state.mask.len() > 0 && !state.mask[0] ==> item == Some(
                Ok::<Option<I::V>, Error>(None),
            ) && after.data == state.data
            &&& state.mask.len() > 0 && state.mask[0] ==> after.data == rest && (inner matches Some(
                Ok(v),
            ) ==> item == Some(Ok::<Option<I::V>, Error>(Some(v)))) && (inner is None ==> item is None)
        }),
{
}

} // verus!
