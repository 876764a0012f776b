//! Framing segments.
//!
//! A segment is a header, a body and the checksum of both. The header is one byte for the variant of
//! the segment and a little-endian `u64` for the length of the body.

use crate::io::error::{Error, NumberError};
use crate::num::{
    le_bytes, le_value, lemma_le_bytes_len, lemma_le_round_trip, lemma_le_value_bound,
    lemma_span_values, read_le, write_le,
};
use vstd::prelude::*;
use vstd::slice::slice_subrange;

verus! {

/// The length of a segment header in bytes.
pub const HEADER: usize = 9;

/// The length of a checksum in bytes.
pub const CHECKSUM: usize = 8;

/// The 64-bit XXH3 hash of `bytes`.
pub uninterp spec fn xxh3(bytes: Seq<u8>) -> u64;

/// Hashes through [`xxhash_rust::xxh3::xxh3_64`], whose result depends on the bytes alone.
#[verifier::external_body]
fn hash(bytes: &[u8]) -> (sum: u64)
    ensures
        sum == xxh3(bytes@),
{
    xxhash_rust::xxh3::xxh3_64(bytes)
}

/// The header and the body of a segment.
pub open spec fn region(variant: u8, body: Seq<u8>) -> Seq<u8> {
    seq![variant] + le_bytes(body.len(), 8) + body
}

/// The header, the body and the checksum of a segment.
pub open spec fn framed(variant: u8, body: Seq<u8>) -> Seq<u8> {
    region(variant, body) + le_bytes(xxh3(region(variant, body)) as nat, 8)
}

/// Appends the little-endian bytes of `value`.
fn push_u64(bytes: &mut Vec<u8>, value: u64)
    ensures
        final(bytes)@ == old(bytes)@ + le_bytes(value as nat, 8),
{
    let mut word: [u8; 8] = [0; 8];
    proof {
        lemma_span_values();
    }
    write_le(value as u128, 8, &mut word);
    bytes.extend_from_slice(&word);
}

/// Appends the checksum `sum` to the header and the body of a segment.
pub fn seal(region: Vec<u8>, sum: u64) -> (segment: Vec<u8>)
    ensures
        segment@ == region@ + le_bytes(sum as nat, 8),
{
    let mut segment: Vec<u8> = region;
    push_u64(&mut segment, sum);
    segment
}

/// Frames `body` as a segment of the given variant.
///
/// An empty body, and one that leaves no room for the frame in memory, are refused.
pub fn wrap(variant: u8, body: &[u8]) -> (segment: Result<Vec<u8>, NumberError>)
    ensures
        match segment {
            Ok(s) => s@ == framed(variant, body@) && body@.len() > 0 && body@.len() + HEADER
                + CHECKSUM <= usize::MAX,
            Err(NumberError::Convert) => body@.len() == 0,
            Err(NumberError::Zero) => body@.len() + HEADER + CHECKSUM > usize::MAX,
        },
{
    if body.len() == 0 {
        return Err(NumberError::Convert);
    }
    if body.len() > usize::MAX - (HEADER + CHECKSUM) {
        return Err(NumberError::Zero);
    }
    let mut bytes: Vec<u8> = Vec::new();
    bytes.push(variant);
    push_u64(&mut bytes, body.len() as u64);
    bytes.extend_from_slice(body);
    assert(bytes@ =~= region(variant, body@));
    let sum: u64 = hash(bytes.as_slice());
    Ok(seal(bytes, sum))
}

/// The segment without its checksum, where that is `computed` over the rest.
pub open spec fn checked(segment: Seq<u8>, computed: u64) -> Result<Seq<u8>, Error> {
    if segment.len() < CHECKSUM {
        Err(Error::Truncated { expected: CHECKSUM, actual: segment.len() as usize })
    } else if le_value(segment.skip(segment.len() - CHECKSUM)) != computed {
        Err(Error::Checksum)
    } else {
        Ok(segment.take(segment.len() - CHECKSUM))
    }
}

/// The part of a segment that its checksum covers.
pub open spec fn covered(segment: Seq<u8>) -> Seq<u8> {
    if segment.len() < CHECKSUM {
        Seq::empty()
    } else {
        segment.take(segment.len() - CHECKSUM)
    }
}

/// The segment without its checksum, which must be `computed`.
pub fn verify_with(segment: &[u8], computed: u64) -> (rest: Result<&[u8], Error>)
    ensures
        match rest {
            Ok(r) => checked(segment@, computed) == Ok::<Seq<u8>, Error>(r@),
            Err(e) => checked(segment@, computed) == Err::<Seq<u8>, Error>(e),
        },
{
    if segment.len() < CHECKSUM {
        return Err(Error::Truncated { expected: CHECKSUM, actual: segment.len() });
    }
    let (rest, tail) = segment.split_at(segment.len() - CHECKSUM);
    proof {
        assert(tail@ =~= segment@.skip(segment@.len() - CHECKSUM));
        assert(rest@ =~= segment@.take(segment@.len() - CHECKSUM));
        lemma_le_value_bound(tail@);
        lemma_span_values();
    }
    if read_le(tail) != computed as u128 {
        return Err(Error::Checksum);
    }
    Ok(rest)
}

/// The segment without its checksum, where that matches the rest.
pub fn verify(segment: &[u8]) -> (rest: Result<&[u8], Error>)
    ensures
        match rest {
            Ok(r) => checked(segment@, xxh3(covered(segment@))) == Ok::<Seq<u8>, Error>(r@),
            Err(e) => checked(segment@, xxh3(covered(segment@))) == Err::<Seq<u8>, Error>(e),
        },
{
    if segment.len() < CHECKSUM {
        return verify_with(segment, 0);
    }
    let head: &[u8] = slice_subrange(segment, 0, segment.len() - CHECKSUM);
    assert(head@ =~= covered(segment@));
    verify_with(segment, hash(head))
}

/// The body of a segment whose checksum, computed over the rest, is `computed`.
pub open spec fn unwrapped(segment: Seq<u8>, computed: u64) -> Result<Seq<u8>, Error> {
    match checked(segment, computed) {
        Err(e) => Err(e),
        Ok(rest) => if rest.len() < HEADER {
            Err(Error::Truncated { expected: HEADER, actual: segment.len() as usize })
        } else {
            Ok(rest.skip(HEADER as int))
        },
    }
}

/// The body of a segment without its checksum, where the whole segment has `length` bytes.
pub fn strip(rest: &[u8], length: usize) -> (body: Result<&[u8], Error>)
    ensures
        match body {
            Ok(b) => rest@.len() >= HEADER && b@ == rest@.skip(HEADER as int),
            Err(e) => rest@.len() < HEADER && e == (Error::Truncated {
                expected: HEADER,
                actual: length,
            }),
        },
{
    if rest.len() < HEADER {
        return Err(Error::Truncated { expected: HEADER, actual: length });
    }
    let (_, body) = rest.split_at(HEADER);
    assert(body@ =~= rest@.skip(HEADER as int));
    Ok(body)
}

/// The body of a segment, where the checksum matches.
pub fn unwrap(segment: &[u8]) -> (body: Result<&[u8], Error>)
    ensures
        match body {
            Ok(b) => unwrapped(segment@, xxh3(covered(segment@))) == Ok::<Seq<u8>, Error>(b@),
            Err(e) => unwrapped(segment@, xxh3(covered(segment@))) == Err::<Seq<u8>, Error>(e),
        },
{
    match verify(segment) {
        Ok(rest) => strip(rest, segment.len()),
        Err(e) => Err(e),
    }
}

/// A framed segment verifies, and its body comes back as it was.
pub proof fn law_wrap_then_unwrap(variant: u8, body: Seq<u8>)
    requires
        body.len() <= u64::MAX,
    ensures
        ({
            let segment = framed(variant, body);
            &&& checked(segment, xxh3(covered(segment))) == Ok::<Seq<u8>, Error>(
                region(variant, body),
            )
            &&& unwrapped(segment, xxh3(covered(segment))) == Ok::<Seq<u8>, Error>(body)
        }),
{
    let segment = framed(variant, body);
    let head = region(variant, body);
    let sum = xxh3(head) as nat;
    lemma_span_values();
    lemma_le_bytes_len(sum, 8);
    lemma_le_bytes_len(body.len(), 8);
    lemma_le_round_trip(sum, 8);
    assert(covered(segment) =~= head);
    assert(segment.skip(segment.len() - CHECKSUM) =~= le_bytes(sum, 8));
    assert(head.skip(HEADER as int) =~= body);
}

// ---------------------------------------------------------------- laws

/// A segment is one byte for its variant, eight for the length of its body with the lowest first, the body,
/// and eight for the checksum of all of these.
pub proof fn law_segments_are_laid_out(
    variant: u8,
    body: &[u8],
    segment: Result<Vec<u8>, NumberError>,
)
    requires
        call_ensures(wrap, (variant, body), segment),
        0 < body@.len(),
        body@.len() + 17 <= usize::MAX,
    ensures
        segment matches Ok(s) && ({
            let n = body@.len() as int;
            &&& s@.len() == 17 + n
            &&& s@[0] == variant
            &&& le_value(s@.subrange(1, 9)) == n
            &&& s@.subrange(9, 9 + n) == body@
            &&& le_value(s@.subrange(9 + n, 17 + n)) == xxh3(s@.subrange(0, 9 + n))
        }),
{
    let n = body@.len();
    let head = region(variant, body@);
    lemma_span_values();
    lemma_le_bytes_len(n, 8);
    lemma_le_round_trip(n, 8);
    lemma_le_bytes_len(xxh3(head) as nat, 8);
    lemma_le_round_trip(xxh3(head) as nat, 8);
    let s = framed(variant, body@);
    assert(s.subrange(1, 9) =~= le_bytes(n, 8));
    assert(s.subrange(9, 9 + n as int) =~= body@);
    assert(s.subrange(0, 9 + n as int) =~= head);
    assert(s.subrange(9 + n as int, 17 + n as int) =~= le_bytes(xxh3(head) as nat, 8));
}

/// A segment verifies if and only if its last eight bytes are the checksum of the rest, and what verifies is
/// the rest. A segment that was changed so that they are not is refused.
pub proof fn law_segments_verify_by_their_checksum<'d>(
    segment: &'d [u8],
    rest: Result<&'d [u8], Error>,
    body: Result<&'d [u8], Error>,
)
    requires
        call_ensures(verify, (segment,), rest),
        call_ensures(unwrap, (segment,), body),
        segment@.len() >= 8,
    ensures
        ({
            let n = segment@.len() - 8;
            let intact = le_value(segment@.subrange(n, n + 8)) == xxh3(segment@.subrange(0, n));
            &&& rest is Ok <==> intact
            &&& rest matches Ok(r) ==> r@ == segment@.subrange(0, n)
            &&& rest matches Err(e) ==> e is Checksum
            &&& body is Ok <==> intact && n >= 9
            &&& body matches Ok(b) ==> b@ == segment@.subrange(9, n)
            &&& body matches Err(e) ==> (if intact {
                e is Truncated
            } else {
                e is Checksum
            })
        }),
{
    let n = segment@.len() - 8;
    assert(segment@.skip(n) =~= segment@.subrange(n, n + 8));
    assert(segment@.take(n) =~= segment@.subrange(0, n));
    if n >= 9 {
        assert(segment@.take(n).skip(9) =~= segment@.subrange(9, n));
    }
}

/// Nothing shorter than a checksum verifies, and no empty body is framed.
pub proof fn law_incomplete_segments_are_refused<'d>(
    segment: &'d [u8],
    rest: Result<&'d [u8], Error>,
    variant: u8,
    empty: &[u8],
    framed: Result<Vec<u8>, NumberError>,
)
    requires
        segment@.len() < 8,
        call_ensures(verify, (segment,), rest),
        empty@.len() == 0,
        call_ensures(wrap, (variant, empty), framed),
    ensures
        rest == Err::<&'d [u8], Error>(
            Error::Truncated { expected: 8, actual: segment@.len() as usize },
        ),
        framed == Err::<Vec<u8>, NumberError>(NumberError::Convert),
{
}

} // verus!
