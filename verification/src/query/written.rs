//! Reading gives back what was written.

use crate::io::deserialize::{text, Deserialize, Fixed};
use crate::io::error::Error;
use crate::io::region::index;
use crate::io::written::{law_regions_read_back, prefixed, written_all, Written};
use crate::manifest::buffer::Buffer;
use crate::num::{le_bytes, lemma_le_bytes_len, lemma_le_round_trip, lemma_span_values};
use crate::query::items::{decoded, results};
use crate::read::decode::Decode;
use crate::read::decoder::{
    bit, gathered, list_started, lsb, optional_text_step, text_step, BitCursor, Bits, Cursor,
    Decoder, Empty, ListCursor, ListState, OptBitVec, OptCursor, OptInSitu, OptState, Sequence,
    TextCursor, TextState,
};
use vstd::prelude::*;
use vstd::utf8::encode_utf8;

verus! {

// ---------------------------------------------------------------- what bytes hold

/// Every item, decoded without an error.
pub open spec fn all_ok<V>(items: Seq<V>) -> Seq<Result<V, Error>> {
    items.map_values(|item: V| Ok::<V, Error>(item))
}

/// Whether the pulls from `state` on give `outcomes`, one after the other.
pub open spec fn gives<I: DeepView, C: Cursor<I>>(
    state: C::State,
    outcomes: Seq<Result<I::V, Error>>,
) -> bool
    decreases outcomes.len(),
{
    outcomes.len() == 0 || {
        &&& C::step(state).0 == Some(outcomes[0])
        &&& gives::<I, C>(C::step(state).1, outcomes.skip(1))
    }
}

/// Whether a source over `bytes` gives `outcomes`, one after the other, and the first of them where
/// exactly one is asked for.
pub open spec fn holds<'d, I: DeepView, D: Decoder<'d, I>>(
    bytes: Seq<u8>,
    outcomes: Seq<Result<I::V, Error>>,
) -> bool {
    match D::parse(bytes).0 {
        Err(_) => false,
        Ok(src) => match D::started(src) {
            Err(_) => false,
            Ok(state) => {
                &&& gives::<I, D::Cursor>(state, outcomes)
                &&& outcomes.len() > 0 ==> D::single(src) == outcomes[0]
            },
        },
    }
}

/// The pulls give what they are said to give.
proof fn lemma_given<I: DeepView, C: Cursor<I>>(
    state: C::State,
    outcomes: Seq<Result<I::V, Error>>,
)
    requires
        gives::<I, C>(state, outcomes),
    ensures
        results::<I, C>(state, outcomes.len()) == outcomes,
    decreases outcomes.len(),
{
    if outcomes.len() > 0 {
        lemma_given::<I, C>(C::step(state).1, outcomes.skip(1));
        assert(outcomes =~= seq![outcomes[0]] + outcomes.skip(1));
    } else {
        assert(outcomes =~= Seq::empty());
    }
}

/// Reading a buffer gives what its bytes hold, whatever surrounds the buffer in the file.
pub proof fn law_buffers_give_what_they_hold<'d, I: Decode<'d>>(
    buffer: Buffer,
    map: Seq<u8>,
    bytes: Seq<u8>,
    outcomes: Seq<Result<I::V, Error>>,
)
    requires
        !(buffer is Compact),
        buffer.length() == outcomes.len(),
        index(buffer.length()) is Ok,
        buffer.place().covered(map) == Ok::<_, Error>(bytes),
        holds::<I, I::Src>(bytes, outcomes),
    ensures
        decoded::<I>(buffer, map) == outcomes,
{
    let state = I::Src::started(I::Src::parse(bytes).0->Ok_0)->Ok_0;
    lemma_given::<I, <I::Src as Decoder<'d, I>>::Cursor>(state, outcomes);
}

/// Reading a compact buffer gives the one item that its bytes hold, as often as the buffer records.
pub proof fn law_compact_buffers_repeat_what_they_hold<'d, I: Decode<'d>>(
    buffer: Buffer,
    map: Seq<u8>,
    bytes: Seq<u8>,
    item: I::V,
)
    requires
        buffer is Compact,
        index(buffer.length()) is Ok,
        buffer.place().covered(map) == Ok::<_, Error>(bytes),
        holds::<I, I::Src>(bytes, seq![Ok(item)]),
    ensures
        decoded::<I>(buffer, map) == Seq::new(
            buffer.length() as nat,
            |i: int| Ok::<I::V, Error>(item),
        ),
{
    assert(decoded::<I>(buffer, map) =~= Seq::new(
        buffer.length() as nat,
        |i: int| Ok::<I::V, Error>(item),
    ));
}

// ---------------------------------------------------------------- items of fixed width

/// Items of fixed width are pulled as they were written, one after the other.
proof fn lemma_fixed<'d, I: Written>(items: Seq<I>)
    requires
        forall|i: int| 0 <= i < items.len() ==> (#[trigger] items[i]).proper(),
    ensures
        gives::<I, &'d [u8]>(written_all(items), all_ok(items)),
        items.len() > 0 ==> I::parse(written_all(items)).0 == Ok::<I, Error>(items[0]),
    decreases items.len(),
{
    if items.len() > 0 {
        let all = written_all(items);
        let (first, rest) = (items[0], items.skip(1));
        first.spells();
        assert(all.take(I::width() as int) =~= first.written());
        assert(all.skip(I::width() as int) =~= written_all(rest));
        lemma_fixed::<I>(rest);
        assert(all_ok(items).skip(1) =~= all_ok(rest));
    }
}

/// Integers, floating point numbers, characters and non-zero integers, written one after the other, are
/// what their bytes hold.
pub proof fn law_written_items_are_held<'d, I: Written>(items: Seq<I>)
    requires
        forall|i: int| 0 <= i < items.len() ==> (#[trigger] items[i]).proper(),
    ensures
        holds::<I, &'d [u8]>(written_all(items), all_ok(items)),
{
    lemma_fixed::<I>(items);
}

/// Optional characters and optional non-zero integers, written one after the other in place, are what
/// their bytes hold.
pub proof fn law_optional_items_in_place_are_held<'d, I: DeepView>(items: Seq<Option<I>>) where
    Option<I>: Written,

    requires
        forall|i: int| 0 <= i < items.len() ==> (#[trigger] items[i]).proper(),
    ensures
        holds::<Option<I>, OptInSitu<'d>>(written_all(items), all_ok(items)),
{
    lemma_fixed::<Option<I>>(items);
}

// ---------------------------------------------------------------- bit-packed items

/// The byte whose bits are `items` from place `at` on. Past the end bits are clear.
pub open spec fn packed_byte(items: Seq<bool>, at: int) -> u8 {
    let b = |i: int|
        if at + i < items.len() && items[at + i] {
            1u8
        } else {
            0u8
        };
    b(0) | (b(1) << 1) | (b(2) << 2) | (b(3) << 3) | (b(4) << 4) | (b(5) << 5) | (b(6) << 6) | (b(7)
        << 7)
}

/// Truth values packed into bytes, each from its least significant bit on.
pub open spec fn packed(items: Seq<bool>) -> Seq<u8> {
    Seq::new((items.len() + 7) / 8, |k: int| packed_byte(items, 8 * k))
}

/// The bits of a byte that was put together from them.
proof fn lemma_bits(a: u8, b: u8, c: u8, d: u8, e: u8, f: u8, g: u8, h: u8)
    requires
        a <= 1,
        b <= 1,
        c <= 1,
        d <= 1,
        e <= 1,
        f <= 1,
        g <= 1,
        h <= 1,
    ensures
        ({
            let x = a | (b << 1) | (c << 2) | (d << 3) | (e << 4) | (f << 5) | (g << 6) | (h << 7);
            &&& (x >> 0) & 1 == a
            &&& (x >> 1) & 1 == b
            &&& (x >> 2) & 1 == c
            &&& (x >> 3) & 1 == d
            &&& (x >> 4) & 1 == e
            &&& (x >> 5) & 1 == f
            &&& (x >> 6) & 1 == g
            &&& (x >> 7) & 1 == h
        }),
{
    let x = a | (b << 1) | (c << 2) | (d << 3) | (e << 4) | (f << 5) | (g << 6) | (h << 7);
    assert((x >> 0) & 1 == a && (x >> 1) & 1 == b && (x >> 2) & 1 == c && (x >> 3) & 1 == d && (x >> 4)
        & 1 == e && (x >> 5) & 1 == f && (x >> 6) & 1 == g && (x >> 7) & 1 == h) by (bit_vector)
        requires
            a <= 1,
            b <= 1,
            c <= 1,
            d <= 1,
            e <= 1,
            f <= 1,
            g <= 1,
            h <= 1,
            x == a | (b << 1) | (c << 2) | (d << 3) | (e << 4) | (f << 5) | (g << 6) | (h << 7),
    ;
}

/// Unpacking gives back the truth values that were packed.
pub proof fn law_packed_bits_unpack(items: Seq<bool>)
    ensures
        items.len() <= lsb(packed(items)).len(),
        lsb(packed(items)).take(items.len() as int) == items,
{
    let bytes = packed(items);
    assert forall|i: int| 0 <= i < items.len() implies #[trigger] lsb(bytes)[i] == items[i] by {
        let at = 8 * (i / 8);
        let b = |j: int|
            if at + j < items.len() && items[at + j] {
                1u8
            } else {
                0u8
            };
        lemma_bits(b(0), b(1), b(2), b(3), b(4), b(5), b(6), b(7));
        assert(bytes[i / 8] == packed_byte(items, at));
        let j = i % 8;
        assert(at + j == i);
        assert(bit(bytes[i / 8], j as nat) == (b(j) == 1));
    }
    assert(lsb(bytes).take(items.len() as int) =~= items);
}

/// Bits are pulled from the first on.
proof fn lemma_pulled_bits<'d>(bits: Seq<bool>, items: Seq<bool>)
    requires
        items.len() <= bits.len(),
        items == bits.take(items.len() as int),
    ensures
        gives::<bool, BitCursor<'d>>(bits, all_ok(items)),
    decreases items.len(),
{
    if items.len() > 0 {
        assert(items[0] == bits[0]);
        assert(items.skip(1) =~= bits.skip(1).take(items.len() - 1));
        lemma_pulled_bits(bits.skip(1), items.skip(1));
        assert(all_ok(items).skip(1) =~= all_ok(items.skip(1)));
    }
}

/// Truth values are the first bits of the bytes that hold them.
pub proof fn law_bits_are_held<'d>(bytes: Seq<u8>, items: Seq<bool>)
    requires
        items.len() <= lsb(bytes).len(),
        items == lsb(bytes).take(items.len() as int),
    ensures
        holds::<bool, Bits<'d>>(bytes, all_ok(items)),
{
    lemma_pulled_bits(lsb(bytes), items);
}

// ---------------------------------------------------------------- optional items with a validity mask

/// Which items are present.
pub open spec fn presence<V>(items: Seq<Option<V>>) -> Seq<bool> {
    items.map_values(|item: Option<V>| item is Some)
}

/// The items that are present.
pub open spec fn present<V>(items: Seq<Option<V>>) -> Seq<V>
    decreases items.len(),
{
    if items.len() == 0 {
        Seq::empty()
    } else {
        match items[0] {
            Some(item) => seq![item] + present(items.skip(1)),
            None => present(items.skip(1)),
        }
    }
}

/// Optional items are pulled by their mask.
proof fn lemma_pulled_optional<'d, I: Decode<'d>>(
    state: OptState<<<I::Src as Decoder<'d, I>>::Cursor as Cursor<I>>::State>,
    items: Seq<Option<I::V>>,
)
    requires
        items.len() <= state.mask.len(),
        presence(items) == state.mask.take(items.len() as int),
        gives::<I, <I::Src as Decoder<'d, I>>::Cursor>(state.data, all_ok(present(items))),
    ensures
        gives::<Option<I>, OptCursor<'d, I>>(state, all_ok(items)),
    decreases items.len(),
{
    if items.len() > 0 {
        let rest = items.skip(1);
        assert(presence(items)[0] == state.mask[0]);
        assert(presence(rest) =~= state.mask.skip(1).take(rest.len() as int)) by {
            assert forall|i: int| 0 <= i < rest.len() implies presence(rest)[i]
                == #[trigger] state.mask.skip(1).take(rest.len() as int)[i] by {
                assert(presence(items)[i + 1] == state.mask[i + 1]);
            }
        }
        assert(all_ok(items).skip(1) =~= all_ok(rest));
        match items[0] {
            Some(item) => {
                assert(present(items)[0] == item);
                assert(present(items).skip(1) =~= present(rest));
                assert(all_ok(present(items)).skip(1) =~= all_ok(present(rest)));
                let data = <I::Src as Decoder<'d, I>>::Cursor::step(state.data).1;
                lemma_pulled_optional::<I>(OptState { mask: state.mask.skip(1), data }, rest);
            },
            None => {
                lemma_pulled_optional::<I>(
                    OptState { mask: state.mask.skip(1), data: state.data },
                    rest,
                );
            },
        }
    }
}

/// Optional items are what a region with their validity and a region that holds the present ones hold.
pub proof fn law_optional_items_are_held<'d, I: Decode<'d>>(
    mask: Seq<u8>,
    data: Seq<u8>,
    items: Seq<Option<I::V>>,
) where I::Src: Empty
    requires
        mask.len() <= usize::MAX,
        data.len() <= usize::MAX,
        items.len() <= lsb(mask).len(),
        presence(items) == lsb(mask).take(items.len() as int),
        holds::<I, I::Src>(data, all_ok(present(items))),
    ensures
        holds::<Option<I>, OptBitVec<'d, I>>(prefixed(mask) + prefixed(data), all_ok(items)),
{
    let bytes = prefixed(mask) + prefixed(data);
    law_regions_read_back(mask, prefixed(data));
    law_regions_read_back(data, Seq::empty());
    lemma_le_bytes_len(data.len(), 8);
    assert(prefixed(data) + Seq::<u8>::empty() =~= prefixed(data));
    let inner = I::Src::parse(data).0->Ok_0;
    assert(OptBitVec::<'d, I>::parse(bytes).0 == Ok::<_, Error>((lsb(mask), inner)));
    let state = OptState { mask: lsb(mask), data: I::Src::started(inner)->Ok_0 };
    lemma_pulled_optional::<I>(state, items);
    if items.len() > 0 {
        assert(presence(items)[0] == lsb(mask)[0]);
        if let Some(item) = items[0] {
            assert(present(items)[0] == item);
            assert(all_ok(present(items))[0] == Ok::<I::V, Error>(item));
        }
    }
}

/// Where every item is absent, the region with their validity may stand alone.
pub proof fn law_absent_items_are_held<'d, I: Decode<'d>>(mask: Seq<u8>, n: nat) where I::Src: Empty
    requires
        mask.len() <= usize::MAX,
        n <= lsb(mask).len(),
        forall|i: int| 0 <= i < n ==> !#[trigger] lsb(mask)[i],
        I::Src::started(I::Src::nothing()) is Ok,
    ensures
        holds::<Option<I>, OptBitVec<'d, I>>(
            prefixed(mask),
            Seq::new(n, |i: int| Ok::<Option<I::V>, Error>(None)),
        ),
{
    let items = Seq::new(n, |i: int| None::<I::V>);
    law_regions_read_back(mask, Seq::empty());
    assert(prefixed(mask) + Seq::<u8>::empty() =~= prefixed(mask));
    lemma_none_present(items);
    assert(presence(items) =~= lsb(mask).take(n as int));
    let state = OptState { mask: lsb(mask), data: I::Src::started(I::Src::nothing())->Ok_0 };
    lemma_pulled_optional::<I>(state, items);
    assert(all_ok(items) =~= Seq::new(n, |i: int| Ok::<Option<I::V>, Error>(None)));
}

/// Nothing is present among absent items.
proof fn lemma_none_present<V>(items: Seq<Option<V>>)
    requires
        forall|i: int| 0 <= i < items.len() ==> (#[trigger] items[i]) is None,
    ensures
        present(items) == Seq::<V>::empty(),
    decreases items.len(),
{
    if items.len() > 0 {
        lemma_none_present(items.skip(1));
    }
}

// ---------------------------------------------------------------- items of varying length

/// Every item, each present.
pub open spec fn each_present<T>(items: Seq<T>) -> Seq<Option<T>> {
    items.map_values(|item: T| Some(item))
}

/// The contents of the present items, one after the other.
pub open spec fn contents<T>(items: Seq<Option<Seq<T>>>) -> Seq<T>
    decreases items.len(),
{
    if items.len() == 0 {
        Seq::empty()
    } else {
        match items[0] {
            Some(item) => item + contents(items.skip(1)),
            None => contents(items.skip(1)),
        }
    }
}

/// Where each item ends, counted over all items from `start` on, or the largest `u64` where the item is
/// absent.
pub open spec fn ends_of<T>(items: Seq<Option<Seq<T>>>, start: nat) -> Seq<u8>
    decreases items.len(),
{
    if items.len() == 0 {
        Seq::empty()
    } else {
        match items[0] {
            Some(item) => le_bytes(start + item.len(), 8) + ends_of(items.skip(1), start + item.len()),
            None => le_bytes(u64::MAX as nat, 8) + ends_of(items.skip(1), start),
        }
    }
}

/// A region of ends and a region of data, one after the other, are read as both.
pub proof fn law_sequences_read_back<'d>(ends: Seq<u8>, data: Seq<u8>)
    requires
        ends.len() <= usize::MAX,
        data.len() <= usize::MAX,
    ensures
        Sequence::<'d>::parse(prefixed(ends) + prefixed(data)).0 == Ok::<_, Error>((ends, data)),
{
    law_regions_read_back(ends, prefixed(data));
    law_regions_read_back(data, Seq::empty());
    lemma_le_bytes_len(data.len(), 8);
    assert(prefixed(data) + Seq::<u8>::empty() =~= prefixed(data));
}

/// Where there is no data, the region of ends may stand alone.
pub proof fn law_sequences_without_data_read_back<'d>(ends: Seq<u8>)
    requires
        ends.len() <= usize::MAX,
    ensures
        Sequence::<'d>::parse(prefixed(ends)).0 == Ok::<_, Error>((ends, Seq::<u8>::empty())),
{
    law_regions_read_back(ends, Seq::empty());
    assert(prefixed(ends) + Seq::<u8>::empty() =~= prefixed(ends));
}

/// An end is read as it was written.
proof fn lemma_end(end: nat, rest: Seq<u8>)
    requires
        end <= u64::MAX,
    ensures
        (le_bytes(end, 8) + rest).len() > 0,
        u64::parse(le_bytes(end, 8) + rest) == (Ok::<u64, Error>(end as u64), rest),
{
    lemma_span_values();
    lemma_le_bytes_len(end, 8);
    lemma_le_round_trip(end, 8);
    assert((le_bytes(end, 8) + rest).take(8) =~= le_bytes(end, 8));
    assert((le_bytes(end, 8) + rest).skip(8) =~= rest);
}

/// One text is pulled up to its end.
proof fn lemma_text_step(state: TextState, items: Seq<Seq<u8>>)
    requires
        items.len() > 0,
        state.ends == ends_of(each_present(items), state.start as nat),
        state.data == contents(each_present(items)),
        0 <= state.start,
        state.start + state.data.len() <= usize::MAX,
    ensures
        ({
            let rest = each_present(items.skip(1));
            let after = text_step(state).1;
            &&& text_step(state).0 == Some(text(items[0]))
            &&& after.ends == ends_of(rest, after.start as nat)
            &&& after.data == contents(rest)
            &&& 0 <= after.start
            &&& after.start + after.data.len() == state.start + state.data.len()
        }),
{
    let all = each_present(items);
    let (item, rest) = (items[0], all.skip(1));
    let end = state.start + item.len();
    assert(rest =~= each_present(items.skip(1)));
    assert(state.data == item + contents(rest));
    lemma_end(end as nat, ends_of(rest, end as nat));
    assert(state.data.take(item.len() as int) =~= item);
    assert(state.data.skip(item.len() as int) =~= contents(rest));
}

/// Texts are pulled up to their ends.
proof fn lemma_pulled_texts<'d>(state: TextState, items: Seq<Seq<u8>>)
    requires
        state.ends == ends_of(each_present(items), state.start as nat),
        state.data == contents(each_present(items)),
        0 <= state.start,
        state.start + state.data.len() <= usize::MAX,
    ensures
        gives::<String, TextCursor<'d>>(state, items.map_values(|item: Seq<u8>| text(item))),
    decreases items.len(),
{
    if items.len() > 0 {
        let outcomes = items.map_values(|item: Seq<u8>| text(item));
        let rest = items.skip(1);
        lemma_text_step(state, items);
        lemma_pulled_texts(text_step(state).1, rest);
        assert(outcomes.skip(1) =~= rest.map_values(|item: Seq<u8>| text(item)));
    }
}

/// Borrowed texts are pulled up to their ends.
proof fn lemma_borrowed_texts<'d>(state: TextState, items: Seq<Seq<u8>>)
    requires
        state.ends == ends_of(each_present(items), state.start as nat),
        state.data == contents(each_present(items)),
        0 <= state.start,
        state.start + state.data.len() <= usize::MAX,
    ensures
        gives::<&'d str, TextCursor<'d>>(state, items.map_values(|item: Seq<u8>| text(item))),
    decreases items.len(),
{
    if items.len() > 0 {
        let outcomes = items.map_values(|item: Seq<u8>| text(item));
        let rest = items.skip(1);
        lemma_text_step(state, items);
        lemma_borrowed_texts(text_step(state).1, rest);
        assert(outcomes.skip(1) =~= rest.map_values(|item: Seq<u8>| text(item)));
    }
}

/// Texts are what a source with their ends and their contents holds. Contents that are no text give an
/// error in their place.
pub proof fn law_texts_are_held<'d>(bytes: Seq<u8>, items: Seq<Seq<u8>>)
    requires
        Sequence::<'d>::parse(bytes).0 == Ok::<_, Error>(
            (ends_of(each_present(items), 0), contents(each_present(items))),
        ),
        contents(each_present(items)).len() <= usize::MAX,
    ensures
        holds::<String, Sequence<'d>>(bytes, items.map_values(|item: Seq<u8>| text(item))),
        holds::<&'d str, Sequence<'d>>(bytes, items.map_values(|item: Seq<u8>| text(item))),
{
    let all = each_present(items);
    let state = TextState { ends: ends_of(all, 0), data: contents(all), start: 0 };
    lemma_pulled_texts(state, items);
    lemma_borrowed_texts(state, items);
}

/// What an item gives where it is text, and where it is absent.
pub open spec fn optional_text(item: Option<Seq<u8>>) -> Result<Option<Seq<char>>, Error> {
    match item {
        None => Ok(None),
        Some(bytes) => match text(bytes) {
            Ok(t) => Ok(Some(t)),
            Err(e) => Err(e),
        },
    }
}

/// Optional texts are pulled up to their ends.
proof fn lemma_optional_texts<'d>(state: TextState, items: Seq<Option<Seq<u8>>>)
    requires
        state.ends == ends_of(items, state.start as nat),
        state.data == contents(items),
        0 <= state.start,
        state.start + state.data.len() <= usize::MAX,
        state.start + state.data.len() < u64::MAX,
    ensures
        gives::<Option<String>, TextCursor<'d>>(
            state,
            items.map_values(|item: Option<Seq<u8>>| optional_text(item)),
        ),
    decreases items.len(),
{
    if items.len() > 0 {
        let outcomes = items.map_values(|item: Option<Seq<u8>>| optional_text(item));
        let rest = items.skip(1);
        assert(outcomes.skip(1) =~= rest.map_values(|item: Option<Seq<u8>>| optional_text(item)));
        match items[0] {
            None => {
                lemma_end(u64::MAX as nat, ends_of(rest, state.start as nat));
                lemma_optional_texts(optional_text_step(state).1, rest);
            },
            Some(item) => {
                let end = state.start + item.len();
                assert(state.data == item + contents(rest));
                lemma_end(end as nat, ends_of(rest, end as nat));
                assert(state.data.take(item.len() as int) =~= item);
                assert(state.data.skip(item.len() as int) =~= contents(rest));
                lemma_optional_texts(optional_text_step(state).1, rest);
            },
        }
    }
}

/// Optional texts are what a source with their ends and their contents holds.
pub proof fn law_optional_texts_are_held<'d>(bytes: Seq<u8>, items: Seq<Option<Seq<u8>>>)
    requires
        Sequence::<'d>::parse(bytes).0 == Ok::<_, Error>((ends_of(items, 0), contents(items))),
        contents(items).len() <= usize::MAX,
        contents(items).len() < u64::MAX,
    ensures
        holds::<Option<String>, Sequence<'d>>(
            bytes,
            items.map_values(|item: Option<Seq<u8>>| optional_text(item)),
        ),
{
    let state = TextState { ends: ends_of(items, 0), data: contents(items), start: 0 };
    lemma_optional_texts(state, items);
}

/// The encoding of characters is their text.
pub proof fn law_encoded_characters_are_text(chars: Seq<char>)
    ensures
        text(encode_utf8(chars)) == Ok::<Seq<char>, Error>(chars),
{
    vstd::utf8::encode_utf8_valid_utf8(chars);
    vstd::utf8::encode_utf8_decode_utf8(chars);
}

// ---------------------------------------------------------------- lists

/// As many elements are gathered as there are in a list, and the rest is still to come.
proof fn lemma_gathered<I: DeepView, C: Cursor<I>>(
    found: Seq<I::V>,
    state: C::State,
    list: Seq<I::V>,
    rest: Seq<I::V>,
)
    requires
        gives::<I, C>(state, all_ok(list + rest)),
    ensures
        gathered::<I, C>(found, state, list.len()).0 == Ok::<Seq<I::V>, Error>(found + list),
        gives::<I, C>(gathered::<I, C>(found, state, list.len()).1, all_ok(rest)),
    decreases list.len(),
{
    if list.len() > 0 {
        let all = list + rest;
        assert(all_ok(all)[0] == Ok::<I::V, Error>(list[0]));
        assert(all_ok(all).skip(1) =~= all_ok(list.skip(1) + rest));
        lemma_gathered::<I, C>(found.push(list[0]), C::step(state).1, list.skip(1), rest);
        assert(found.push(list[0]) + list.skip(1) =~= found + list);
    } else {
        assert(list + rest =~= rest);
        assert(found + list =~= found);
    }
}

/// Lists are pulled up to their ends.
proof fn lemma_pulled_lists<'d, I: DeepView, C: Cursor<I>>(
    state: ListState<C::State>,
    lists: Seq<Seq<I::V>>,
)
    requires
        state.ends == ends_of(each_present(lists), state.start as nat),
        gives::<I, C>(state.data, all_ok(contents(each_present(lists)))),
        0 <= state.start,
        state.start + contents(each_present(lists)).len() <= usize::MAX,
    ensures
        gives::<Vec<I>, ListCursor<'d, I, C>>(state, all_ok(lists)),
    decreases lists.len(),
{
    if lists.len() > 0 {
        let all = each_present(lists);
        let (list, rest) = (lists[0], lists.skip(1));
        assert(all.skip(1) =~= each_present(rest));
        let after = contents(each_present(rest));
        let end = state.start + list.len();
        assert(contents(all) == list + after);
        lemma_end(end as nat, ends_of(each_present(rest), end as nat));
        lemma_gathered::<I, C>(Seq::empty(), state.data, list, after);
        assert(Seq::empty() + list =~= list);
        let data = gathered::<I, C>(Seq::empty(), state.data, list.len()).1;
        lemma_pulled_lists::<I, C>(
            ListState { ends: ends_of(each_present(rest), end as nat), start: end, data },
            rest,
        );
        assert(all_ok(lists).skip(1) =~= all_ok(rest));
    }
}

/// Optional lists are pulled up to their ends.
proof fn lemma_optional_lists<'d, I: DeepView, C: Cursor<I>>(
    state: ListState<C::State>,
    lists: Seq<Option<Seq<I::V>>>,
)
    requires
        state.ends == ends_of(lists, state.start as nat),
        gives::<I, C>(state.data, all_ok(contents(lists))),
        0 <= state.start,
        state.start + contents(lists).len() <= usize::MAX,
        state.start + contents(lists).len() < u64::MAX,
    ensures
        gives::<Option<Vec<I>>, ListCursor<'d, I, C>>(state, all_ok(lists)),
    decreases lists.len(),
{
    if lists.len() > 0 {
        let rest = lists.skip(1);
        let after = contents(rest);
        assert(all_ok(lists).skip(1) =~= all_ok(rest));
        match lists[0] {
            None => {
                let ends = ends_of(rest, state.start as nat);
                lemma_end(u64::MAX as nat, ends);
                lemma_optional_lists::<I, C>(
                    ListState { ends, start: state.start, data: state.data },
                    rest,
                );
            },
            Some(list) => {
                let end = state.start + list.len();
                let ends = ends_of(rest, end as nat);
                assert(contents(lists) == list + after);
                lemma_end(end as nat, ends);
                lemma_gathered::<I, C>(Seq::empty(), state.data, list, after);
                assert(Seq::empty() + list =~= list);
                let data = gathered::<I, C>(Seq::empty(), state.data, list.len()).1;
                lemma_optional_lists::<I, C>(ListState { ends, start: end, data }, rest);
            },
        }
    }
}

/// Lists are what a source with their ends and with data that holds their elements holds.
pub proof fn law_lists_are_held<'d, I: Decode<'d>>(
    bytes: Seq<u8>,
    data: Seq<u8>,
    lists: Seq<Seq<I::V>>,
)
    requires
        Sequence::<'d>::parse(bytes).0 == Ok::<_, Error>((ends_of(each_present(lists), 0), data)),
        contents(each_present(lists)).len() <= usize::MAX,
        holds::<I, I::Src>(data, all_ok(contents(each_present(lists)))),
    ensures
        holds::<Vec<I>, Sequence<'d>>(bytes, all_ok(lists)),
{
    let src = (ends_of(each_present(lists), 0), data);
    let state = list_started::<I>(src)->Ok_0;
    lemma_pulled_lists::<I, <I::Src as Decoder<'d, I>>::Cursor>(state, lists);
}

/// Optional lists are what a source with their ends and with data that holds their elements holds.
pub proof fn law_optional_lists_are_held<'d, I: Decode<'d>>(
    bytes: Seq<u8>,
    data: Seq<u8>,
    lists: Seq<Option<Seq<I::V>>>,
)
    requires
        Sequence::<'d>::parse(bytes).0 == Ok::<_, Error>((ends_of(lists, 0), data)),
        contents(lists).len() <= usize::MAX,
        contents(lists).len() < u64::MAX,
        holds::<I, I::Src>(data, all_ok(contents(lists))),
    ensures
        holds::<Option<Vec<I>>, Sequence<'d>>(bytes, all_ok(lists)),
{
    let src = (ends_of(lists, 0), data);
    let state = list_started::<I>(src)->Ok_0;
    lemma_optional_lists::<I, <I::Src as Decoder<'d, I>>::Cursor>(state, lists);
}

// ---------------------------------------------------------------- whole buffers

/// Whether `buffer` records `n` items, which are not all one, and covers `bytes` of the file.
pub open spec fn records(buffer: Buffer, map: Seq<u8>, n: nat, bytes: Seq<u8>) -> bool {
    &&& !(buffer is Compact)
    &&& buffer.length() == n
    &&& index(buffer.length()) is Ok
    &&& buffer.place().covered(map) == Ok::<_, Error>(bytes)
}

/// Reading a buffer of items of fixed width gives back the items that it was written with.
pub proof fn law_written_items_read_back<'d, I: Written + Decode<'d, Src = &'d [u8]>>(
    buffer: Buffer,
    map: Seq<u8>,
    items: Seq<I>,
)
    requires
        records(buffer, map, items.len(), written_all(items)),
        forall|i: int| 0 <= i < items.len() ==> (#[trigger] items[i]).proper(),
    ensures
        decoded::<I>(buffer, map) == all_ok(items),
{
    law_written_items_are_held::<I>(items);
    law_buffers_give_what_they_hold::<I>(buffer, map, written_all(items), all_ok(items));
}

/// Reading a buffer of optional items in place gives back the items that it was written with.
pub proof fn law_written_optional_items_in_place_read_back<'d, I: DeepView>(
    buffer: Buffer,
    map: Seq<u8>,
    items: Seq<Option<I>>,
) where Option<I>: Written + Decode<'d, Src = OptInSitu<'d>>
    requires
        records(buffer, map, items.len(), written_all(items)),
        forall|i: int| 0 <= i < items.len() ==> (#[trigger] items[i]).proper(),
    ensures
        decoded::<Option<I>>(buffer, map) == all_ok(items),
{
    law_optional_items_in_place_are_held::<I>(items);
    law_buffers_give_what_they_hold::<Option<I>>(buffer, map, written_all(items), all_ok(items));
}

/// Reading a buffer of truth values gives back the values that its first bits are, and so those that were
/// packed.
pub proof fn law_written_bits_read_back(
    buffer: Buffer,
    map: Seq<u8>,
    bytes: Seq<u8>,
    items: Seq<bool>,
)
    requires
        records(buffer, map, items.len(), bytes),
        bytes == packed(items) || items.len() <= lsb(bytes).len() && items == lsb(bytes).take(
            items.len() as int,
        ),
    ensures
        decoded::<bool>(buffer, map) == all_ok(items),
{
    law_packed_bits_unpack(items);
    law_bits_are_held(bytes, items);
    law_buffers_give_what_they_hold::<bool>(buffer, map, bytes, all_ok(items));
}

/// Reading a buffer of optional items gives back the items that it was written with.
pub proof fn law_written_optional_items_read_back<'d, I: Decode<'d>>(
    buffer: Buffer,
    map: Seq<u8>,
    data: Seq<u8>,
    items: Seq<Option<I::V>>,
) where
    I::Src: Empty,
    Option<I>: Decode<'d, Src = OptBitVec<'d, I>> + DeepView<V = Option<<I as DeepView>::V>>,

    requires
        records(
            buffer,
            map,
            items.len(),
            prefixed(packed(presence(items))) + prefixed(data),
        ),
        data.len() <= usize::MAX,
        holds::<I, I::Src>(data, all_ok(present(items))),
    ensures
        decoded::<Option<I>>(buffer, map) == all_ok(items),
{
    let mask = packed(presence(items));
    law_packed_bits_unpack(presence(items));
    law_optional_items_are_held::<I>(mask, data, items);
    law_buffers_give_what_they_hold::<Option<I>>(
        buffer,
        map,
        prefixed(mask) + prefixed(data),
        all_ok(items),
    );
}

/// The encoding of each text.
pub open spec fn encoded_texts(items: Seq<Option<Seq<char>>>) -> Seq<Option<Seq<u8>>> {
    items.map_values(
        |item: Option<Seq<char>>|
            match item {
                Some(chars) => Some(encode_utf8(chars)),
                None => None,
            },
    )
}

/// Reading a buffer of texts gives back the texts that it was written with.
pub proof fn law_written_texts_read_back<'d>(buffer: Buffer, map: Seq<u8>, items: Seq<Seq<char>>)
    requires
        ({
            let encoded = encoded_texts(each_present(items));
            &&& records(
                buffer,
                map,
                items.len(),
                prefixed(ends_of(encoded, 0)) + prefixed(contents(encoded)),
            )
            &&& ends_of(encoded, 0).len() <= usize::MAX
            &&& contents(encoded).len() <= usize::MAX
        }),
    ensures
        decoded::<String>(buffer, map) == all_ok(items),
        decoded::<&'d str>(buffer, map) == all_ok(items),
{
    let encoded = encoded_texts(each_present(items));
    let raw = items.map_values(|chars: Seq<char>| encode_utf8(chars));
    let bytes = prefixed(ends_of(encoded, 0)) + prefixed(contents(encoded));
    assert(encoded =~= each_present(raw));
    law_sequences_read_back(ends_of(encoded, 0), contents(encoded));
    law_texts_are_held(bytes, raw);
    let outcomes = raw.map_values(|item: Seq<u8>| text(item));
    assert forall|i: int| 0 <= i < items.len() implies #[trigger] outcomes[i] == all_ok(items)[i] by {
        law_encoded_characters_are_text(items[i]);
    }
    assert(outcomes =~= all_ok(items));
    law_buffers_give_what_they_hold::<String>(buffer, map, bytes, outcomes);
    law_buffers_give_what_they_hold::<&'d str>(buffer, map, bytes, outcomes);
}

/// Reading a buffer of optional texts gives back the texts that it was written with.
pub proof fn law_written_optional_texts_read_back(
    buffer: Buffer,
    map: Seq<u8>,
    items: Seq<Option<Seq<char>>>,
)
    requires
        ({
            let encoded = encoded_texts(items);
            &&& records(
                buffer,
                map,
                items.len(),
                prefixed(ends_of(encoded, 0)) + prefixed(contents(encoded)),
            )
            &&& ends_of(encoded, 0).len() <= usize::MAX
            &&& contents(encoded).len() <= usize::MAX
            &&& contents(encoded).len() < u64::MAX
        }),
    ensures
        decoded::<Option<String>>(buffer, map) == all_ok(items),
{
    let encoded = encoded_texts(items);
    let bytes = prefixed(ends_of(encoded, 0)) + prefixed(contents(encoded));
    law_sequences_read_back(ends_of(encoded, 0), contents(encoded));
    law_optional_texts_are_held(bytes, encoded);
    let outcomes = encoded.map_values(|item: Option<Seq<u8>>| optional_text(item));
    assert forall|i: int| 0 <= i < items.len() implies #[trigger] outcomes[i] == all_ok(items)[i] by {
        if let Some(chars) = items[i] {
            law_encoded_characters_are_text(chars);
        }
    }
    assert(outcomes =~= all_ok(items));
    law_buffers_give_what_they_hold::<Option<String>>(buffer, map, bytes, outcomes);
}

/// Reading a buffer of lists gives back the lists that it was written with.
pub proof fn law_written_lists_read_back<'d, I: Decode<'d>>(
    buffer: Buffer,
    map: Seq<u8>,
    data: Seq<u8>,
    lists: Seq<Seq<I::V>>,
)
    requires
        ({
            let ends = ends_of(each_present(lists), 0);
            let elements = contents(each_present(lists));
            &&& records(buffer, map, lists.len(), prefixed(ends) + prefixed(data))
            &&& ends.len() <= usize::MAX
            &&& data.len() <= usize::MAX
            &&& elements.len() <= usize::MAX
            &&& holds::<I, I::Src>(data, all_ok(elements))
        }),
    ensures
        decoded::<Vec<I>>(buffer, map) == all_ok(lists),
{
    let ends = ends_of(each_present(lists), 0);
    let bytes = prefixed(ends) + prefixed(data);
    law_sequences_read_back(ends, data);
    law_lists_are_held::<I>(bytes, data, lists);
    law_buffers_give_what_they_hold::<Vec<I>>(buffer, map, bytes, all_ok(lists));
}

/// Reading a buffer of optional lists gives back the lists that it was written with.
pub proof fn law_written_optional_lists_read_back<'d, I: Decode<'d>>(
    buffer: Buffer,
    map: Seq<u8>,
    data: Seq<u8>,
    lists: Seq<Option<Seq<I::V>>>,
)
    requires
        ({
            let ends = ends_of(lists, 0);
            let elements = contents(lists);
            &&& records(buffer, map, lists.len(), prefixed(ends) + prefixed(data))
            &&& ends.len() <= usize::MAX
            &&& data.len() <= usize::MAX
            &&& elements.len() <= usize::MAX
            &&& elements.len() < u64::MAX
            &&& holds::<I, I::Src>(data, all_ok(elements))
        }),
    ensures
        decoded::<Option<Vec<I>>>(buffer, map) == all_ok(lists),
{
    let ends = ends_of(lists, 0);
    let bytes = prefixed(ends) + prefixed(data);
    law_sequences_read_back(ends, data);
    law_optional_lists_are_held::<I>(bytes, data, lists);
    law_buffers_give_what_they_hold::<Option<Vec<I>>>(buffer, map, bytes, all_ok(lists));
}

} // verus!
