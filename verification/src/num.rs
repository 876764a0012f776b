//! Little-endian integers and the non-zero types built on them.

use vstd::arithmetic::power::pow;
use vstd::prelude::*;

verus! {

/// The number of values that `width` bytes can hold.
pub open spec fn span(width: nat) -> nat
    decreases width,
{
    if width == 0 {
        1
    } else {
        256 * span((width - 1) as nat)
    }
}

/// The unsigned integer that `bytes` spell in little-endian order.
pub open spec fn le_value(bytes: Seq<u8>) -> nat
    decreases bytes.len(),
{
    if bytes.len() == 0 {
        0
    } else {
        bytes[0] as nat + 256 * le_value(bytes.skip(1))
    }
}

/// The `width` lowest bytes of `value` in little-endian order.
pub open spec fn le_bytes(value: nat, width: nat) -> Seq<u8>
    decreases width,
{
    if width == 0 {
        Seq::empty()
    } else {
        seq![(value % 256) as u8] + le_bytes(value / 256, (width - 1) as nat)
    }
}

/// Two's complement: the signed integer whose `width` bytes spell `value`.
pub open spec fn signed(value: nat, width: nat) -> int {
    if 2 * value < span(width) {
        value as int
    } else {
        value - span(width)
    }
}

pub proof fn lemma_span_values()
    ensures
        span(0) == 1,
        span(1) == 0x100,
        span(2) == 0x1_0000,
        span(4) == 0x1_0000_0000,
        span(8) == 0x1_0000_0000_0000_0000,
        span(16) == 0x1_0000_0000_0000_0000_0000_0000_0000_0000,
{
    reveal_with_fuel(span, 17);
}

pub proof fn lemma_span_monotonic(a: nat, b: nat)
    requires
        a <= b,
    ensures
        1 <= span(a) <= span(b),
    decreases b,
{
    if a < b {
        lemma_span_monotonic(a, (b - 1) as nat);
    } else if a > 0 {
        lemma_span_monotonic((a - 1) as nat, (b - 1) as nat);
    }
}

/// Bytes spell a value that fits their number.
pub proof fn lemma_le_value_bound(bytes: Seq<u8>)
    ensures
        le_value(bytes) < span(bytes.len()),
    decreases bytes.len(),
{
    if bytes.len() > 0 {
        lemma_le_value_bound(bytes.skip(1));
    }
}

pub proof fn lemma_le_bytes_len(value: nat, width: nat)
    ensures
        le_bytes(value, width).len() == width,
    decreases width,
{
    if width > 0 {
        lemma_le_bytes_len(value / 256, (width - 1) as nat);
    }
}

/// Reading back the bytes of a value gives the value, where the bytes are enough to hold it.
pub proof fn lemma_le_round_trip(value: nat, width: nat)
    requires
        value < span(width),
    ensures
        le_value(le_bytes(value, width)) == value,
    decreases width,
{
    if width > 0 {
        lemma_le_round_trip(value / 256, (width - 1) as nat);
        lemma_le_bytes_len(value / 256, (width - 1) as nat);
        assert(le_bytes(value, width).skip(1) =~= le_bytes(value / 256, (width - 1) as nat));
        assert(le_bytes(value, width)[0] == (value % 256) as u8);
    }
}

/// Bytes are determined by the value that they spell.
pub proof fn lemma_le_bytes_of_value(bytes: Seq<u8>)
    ensures
        le_bytes(le_value(bytes), bytes.len()) == bytes,
    decreases bytes.len(),
{
    if bytes.len() > 0 {
        lemma_le_bytes_of_value(bytes.skip(1));
        let rest = le_value(bytes.skip(1));
        assert(le_value(bytes) % 256 == bytes[0]);
        assert(le_value(bytes) / 256 == rest);
        assert(le_bytes(le_value(bytes), bytes.len()) =~= seq![bytes[0]] + bytes.skip(1));
        assert(seq![bytes[0]] + bytes.skip(1) =~= bytes);
    } else {
        assert(le_bytes(0, 0) =~= bytes);
    }
}

/// Reads up to sixteen bytes as one little-endian integer.
pub fn read_le(bytes: &[u8]) -> (value: u128)
    requires
        bytes@.len() <= 16,
    ensures
        value == le_value(bytes@),
{
    let mut value: u128 = 0;
    let mut i: usize = bytes.len();
    assert(bytes@.skip(i as int).len() == 0);
    while i > 0
        invariant
            i <= bytes@.len() <= 16,
            value == le_value(bytes@.skip(i as int)),
        decreases i,
    {
        i -= 1;
        proof {
            let rest = bytes@.skip(i as int);
            assert(rest.skip(1) =~= bytes@.skip(i + 1));
            lemma_le_value_bound(rest);
            lemma_span_monotonic(rest.len(), 16);
            lemma_span_values();
        }
        value = value * 256 + bytes[i] as u128;
    }
    assert(bytes@.skip(0) =~= bytes@);
    value
}

/// Writes the `width` lowest bytes of `value` over the first bytes of `dst`.
pub fn write_le(value: u128, width: usize, dst: &mut [u8])
    requires
        width <= old(dst)@.len(),
    ensures
        final(dst)@ == le_bytes(value as nat, width as nat) + old(dst)@.skip(width as int),
{
    let ghost before = dst@;
    let mut rest: u128 = value;
    let mut i: usize = 0;
    proof {
        lemma_le_bytes_len(value as nat, width as nat);
        assert(le_bytes(value as nat, width as nat).skip(0) =~= le_bytes(
            value as nat,
            width as nat,
        ));
    }
    while i < width
        invariant
            i <= width <= before.len(),
            dst@.len() == before.len(),
            le_bytes(value as nat, width as nat).len() == width,
            le_bytes(value as nat, width as nat).skip(i as int) == le_bytes(
                rest as nat,
                (width - i) as nat,
            ),
            forall|j: int|
                0 <= j < i ==> dst@[j] == #[trigger] le_bytes(value as nat, width as nat)[j],
            forall|j: int| i <= j < before.len() ==> dst@[j] == before[j],
        decreases width - i,
    {
        let ghost all = le_bytes(value as nat, width as nat);
        let ghost left = le_bytes(rest as nat, (width - i) as nat);
        let byte: u8 = (rest % 256) as u8;
        proof {
            assert(left[0] == (rest as nat % 256) as u8);
            assert(all.skip(i as int)[0] == all[i as int]);
            lemma_le_bytes_len((rest / 256) as nat, (width - i - 1) as nat);
            assert(left.skip(1) =~= le_bytes((rest / 256) as nat, (width - i - 1) as nat));
            assert(all.skip(i as int).skip(1) =~= all.skip(i + 1));
        }
        dst[i] = byte;
        rest = rest / 256;
        i += 1;
    }
    assert(dst@ =~= le_bytes(value as nat, width as nat) + before.skip(width as int));
}

// ---------------------------------------------------------------- laws

/// Each byte counts 256 times as much as the one before it.
pub proof fn law_later_bytes_count_more(bytes: Seq<u8>, byte: u8)
    ensures
        le_value(Seq::<u8>::empty()) == 0,
        le_value(bytes.push(byte)) == le_value(bytes) + byte * pow(256, bytes.len()),
    decreases bytes.len(),
{
    let more = bytes.push(byte);
    if bytes.len() == 0 {
        reveal(pow);
        assert(more.skip(1) =~= Seq::<u8>::empty());
        assert(le_value(more) == byte as nat + 256 * le_value(Seq::<u8>::empty()));
    } else {
        reveal(pow);
        let rest = bytes.skip(1);
        law_later_bytes_count_more(rest, byte);
        assert(more.skip(1) =~= rest.push(byte));
        let p = pow(256, rest.len());
        assert(pow(256, bytes.len()) == 256 * p);
        assert(256 * (byte * p) == byte * (256 * p)) by (nonlinear_arith);
    }
}

/// A call that reads bytes, and the bytes of one that are written first, have the smallest first.
pub proof fn law_bytes_are_read_smallest_first(bytes: &[u8], value: u128, place: int)
    requires
        bytes@.len() <= 16,
        call_ensures(read_le, (bytes,), value),
        0 <= place < bytes@.len(),
        forall|i: int| 0 <= i < bytes@.len() && i != place ==> #[trigger] bytes@[i] == 0,
    ensures
        value == bytes@[place] * pow(256, place as nat),
{
    lemma_one_byte(bytes@, place);
}

/// A single byte that is not zero counts by its place.
proof fn lemma_one_byte(bytes: Seq<u8>, place: int)
    requires
        0 <= place < bytes.len(),
        forall|i: int| 0 <= i < bytes.len() && i != place ==> #[trigger] bytes[i] == 0,
    ensures
        le_value(bytes) == bytes[place] * pow(256, place as nat),
    decreases bytes.len(),
{
    let last = bytes.len() - 1;
    let fewer = bytes.drop_last();
    assert(bytes =~= fewer.push(bytes[last]));
    law_later_bytes_count_more(fewer, bytes[last]);
    if place < last {
        assert(fewer[place] == bytes[place]);
        assert forall|i: int| 0 <= i < fewer.len() && i != place implies #[trigger] fewer[i] == 0 by {
            assert(bytes[i] == 0);
        }
        lemma_one_byte(fewer, place);
        assert(bytes[last] * pow(256, last as nat) == 0) by (nonlinear_arith)
            requires
                bytes[last] == 0,
        ;
    } else {
        assert forall|i: int| 0 <= i < fewer.len() implies #[trigger] fewer[i] == 0 by {
            assert(bytes[i] == 0);
        }
        lemma_no_bytes(fewer);
    }
}

/// Zero bytes spell zero.
proof fn lemma_no_bytes(bytes: Seq<u8>)
    requires
        forall|i: int| 0 <= i < bytes.len() ==> #[trigger] bytes[i] == 0,
    ensures
        le_value(bytes) == 0,
    decreases bytes.len(),
{
    if bytes.len() > 0 {
        lemma_no_bytes(bytes.skip(1));
    }
}

/// Two's complement gives the integers of one sign to each half of the patterns.
pub proof fn law_patterns_are_signed_by_halves(value: nat, width: nat)
    requires
        0 < width,
        value < pow(256, width),
    ensures
        span(width) == pow(256, width),
        signed(value, width) == (if value < pow(256, width) / 2 {
            value as int
        } else {
            value - pow(256, width)
        }),
{
    lemma_span_is_pow(width);
    reveal(pow);
    assert(pow(256, width) == 256 * pow(256, (width - 1) as nat));
}

/// The number of patterns of some bytes.
pub proof fn lemma_span_is_pow(width: nat)
    ensures
        span(width) == pow(256, width),
    decreases width,
{
    reveal(pow);
    if width > 0 {
        lemma_span_is_pow((width - 1) as nat);
    }
}

} // verus!
