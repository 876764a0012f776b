//! Regions of bytes.

use super::error::{Error, NumberError};
use crate::nonzero::NonZeroU64;
use crate::num::{le_value, lemma_le_value_bound, lemma_span_values, read_le};
use std::cmp::Ordering;
use vstd::prelude::*;
use vstd::slice::slice_subrange;

verus! {

broadcast use crate::nonzero::group_nonzero;

/// A `u64` as an index, where it fits.
pub open spec fn index(value: u64) -> Result<usize, Error> {
    if value <= usize::MAX {
        Ok(value as usize)
    } else {
        Err(Error::Number(NumberError::Convert))
    }
}

/// Converts `value` to an index.
pub fn to_index(value: u64) -> (converted: Result<usize, Error>)
    ensures
        converted == index(value),
{
    if value <= usize::MAX as u64 {
        Ok(value as usize)
    } else {
        Err(Error::Number(NumberError::Convert))
    }
}

/// A contiguous, non-empty byte range within the segment region.
#[derive(Debug, Clone, Copy, Hash)]
pub struct Sector {
    /// Byte offset to the start of the sector.
    pub offset: u64,
    /// Length of the sector in bytes.
    pub size: NonZeroU64,
}

impl Sector {
    /// A sector of `size` bytes at `offset`.
    pub fn new(offset: u64, size: u64) -> (sector: Result<Self, NumberError>)
        ensures
            size == 0 ==> sector == Err::<Self, _>(NumberError::Zero),
            size != 0 ==> sector is Ok && sector->Ok_0.offset == offset
                && sector->Ok_0.size.held() == size,
    {
        match NonZeroU64::new(size) {
            Some(size) => Ok(Sector { offset, size }),
            None => Err(NumberError::Zero),
        }
    }

    /// The bytes of `map` that the sector covers.
    pub open spec fn covered(&self, map: Seq<u8>) -> Result<Seq<u8>, Error> {
        match (index(self.offset), index(self.size.held())) {
            (Err(e), _) => Err(e),
            (_, Err(e)) => Err(e),
            (Ok(start), Ok(size)) => if start + size <= map.len() {
                Ok(map.subrange(start as int, start + size))
            } else {
                Err(
                    Error::Truncated {
                        expected: size,
                        actual: if start <= map.len() {
                            (map.len() - start) as usize
                        } else {
                            0
                        },
                    },
                )
            },
        }
    }

    /// Borrows the bytes of `map` that the sector covers.
    pub fn slice<'d>(&self, map: &'d [u8]) -> (bytes: Result<&'d [u8], Error>)
        ensures
            match bytes {
                Ok(b) => self.covered(map@) == Ok::<Seq<u8>, Error>(b@),
                Err(e) => self.covered(map@) == Err::<Seq<u8>, Error>(e),
            },
    {
        let start: usize = match to_index(self.offset) {
            Ok(start) => start,
            Err(e) => return Err(e),
        };
        let size: usize = match to_index(self.size.get()) {
            Ok(size) => size,
            Err(e) => return Err(e),
        };
        if start > map.len() {
            Err(Error::Truncated { expected: size, actual: 0 })
        } else if size > map.len() - start {
            Err(Error::Truncated { expected: size, actual: map.len() - start })
        } else {
            Ok(slice_subrange(map, start, start + size))
        }
    }
}

impl PartialEq for Sector {
    fn eq(&self, other: &Self) -> (same: bool) {
        self.offset == other.offset && self.size.get() == other.size.get()
    }
}

impl vstd::std_specs::cmp::PartialEqSpecImpl for Sector {
    open spec fn obeys_eq_spec() -> bool {
        true
    }

    open spec fn eq_spec(&self, other: &Self) -> bool {
        *self == *other
    }
}

impl PartialOrd for Sector {
    fn partial_cmp(&self, other: &Self) -> (order: Option<Ordering>) {
        Some(self.cmp(other))
    }
}

impl vstd::std_specs::cmp::PartialOrdSpecImpl for Sector {
    open spec fn obeys_partial_cmp_spec() -> bool {
        true
    }

    open spec fn partial_cmp_spec(&self, other: &Self) -> Option<Ordering> {
        Some(self.precedence(other))
    }
}

impl Sector {
    /// The order of two sectors, which compares offsets alone: a sector closer to the end of the file
    /// is greater than an earlier one.
    pub open spec fn precedence(&self, other: &Self) -> Ordering {
        if self.offset < other.offset {
            Ordering::Less
        } else if self.offset == other.offset {
            Ordering::Equal
        } else {
            Ordering::Greater
        }
    }

    /// Compares two sectors.
    pub fn cmp(&self, other: &Self) -> (order: Ordering)
        ensures
            order == self.precedence(other),
    {
        if self.offset < other.offset {
            Ordering::Less
        } else if self.offset == other.offset {
            Ordering::Equal
        } else {
            Ordering::Greater
        }
    }
}

/// The number of zero bytes after a payload of `length` bytes, which pad it to a multiple of eight.
pub open spec fn padding(length: int) -> int {
    (8 - length % 8) % 8
}

/// What a length-prefixed region at the start of `src` holds, and what follows it.
///
/// The region is a little-endian `u64` length, a payload of that length and padding to a multiple of
/// eight bytes. Where the region is incomplete nothing is consumed.
pub open spec fn sized(src: Seq<u8>) -> (Result<Seq<u8>, Error>, Seq<u8>) {
    if src.len() < 8 {
        (Err(Error::Truncated { expected: 8, actual: src.len() as usize }), src)
    } else {
        match index(le_value(src.take(8)) as u64) {
            Err(e) => (Err(e), src),
            Ok(length) => {
                let rest = src.skip(8);
                if rest.len() < length + padding(length as int) {
                    (Err(Error::Truncated { expected: length, actual: rest.len() as usize }), src)
                } else {
                    (Ok(rest.take(length as int)), rest.skip(length + padding(length as int)))
                }
            },
        }
    }
}

/// Takes a length-prefixed region from the start of `src`.
pub fn take_sized<'d>(src: &mut &'d [u8]) -> (payload: Result<&'d [u8], Error>)
    ensures
        final(src)@ == sized(old(src)@).1,
        match payload {
            Ok(p) => sized(old(src)@).0 == Ok::<Seq<u8>, Error>(p@),
            Err(e) => sized(old(src)@).0 == Err::<Seq<u8>, Error>(e),
        },
{
    let all: &'d [u8] = *src;
    if all.len() < 8 {
        return Err(Error::Truncated { expected: 8, actual: all.len() });
    }
    let (head, rest) = all.split_at(8);
    proof {
        assert(head@ =~= all@.take(8));
        assert(rest@ =~= all@.skip(8));
        lemma_le_value_bound(head@);
        lemma_span_values();
    }
    let length: usize = match to_index(read_le(head) as u64) {
        Ok(length) => length,
        Err(e) => return Err(e),
    };
    let pad: usize = (8 - length % 8) % 8;
    if rest.len() < length || rest.len() - length < pad {
        return Err(Error::Truncated { expected: length, actual: rest.len() });
    }
    let (payload, after) = rest.split_at(length);
    let (_, tail) = after.split_at(pad);
    proof {
        assert(payload@ =~= rest@.take(length as int));
        assert(tail@ =~= rest@.skip(length + padding(length as int)));
    }
    *src = tail;
    Ok(payload)
}

// ---------------------------------------------------------------- laws

/// An index is the value that it was converted from, and only a value past the largest index is refused.
pub proof fn law_indices_keep_their_value(value: u64, converted: Result<usize, Error>)
    requires
        call_ensures(to_index, (value,), converted),
    ensures
        converted matches Ok(i) ==> i as int == value as int,
        converted is Ok <==> value <= usize::MAX,
        converted matches Err(e) ==> e == Error::Number(NumberError::Convert),
{
}

/// A sector covers as many bytes as its size from its offset on, where the file has them.
pub proof fn law_sectors_cover_their_bytes<'d>(
    sector: Sector,
    map: &'d [u8],
    bytes: Result<&'d [u8], Error>,
)
    requires
        call_ensures(Sector::slice, (&sector, map), bytes),
        sector.offset <= usize::MAX,
        sector.size.held() <= usize::MAX,
    ensures
        ({
            let (start, size) = (sector.offset as int, sector.size.held() as int);
            &&& bytes is Ok <==> start + size <= map@.len()
            &&& bytes matches Ok(b) ==> b@.len() == size && forall|i: int|
                0 <= i < size ==> #[trigger] b@[i] == map@[start + i]
            &&& bytes matches Err(e) ==> e matches Error::Truncated { expected, actual } && expected
                == size && actual == (if start <= map@.len() {
                map@.len() - start
            } else {
                0
            })
        }),
{
    assert(map@.len() == vstd::slice::spec_slice_len(map));
}

/// A sector is made of the offset and the size that it was given, and has a size.
pub proof fn law_sectors_keep_what_they_are_given(
    offset: u64,
    size: u64,
    sector: Result<Sector, NumberError>,
)
    requires
        call_ensures(Sector::new, (offset, size), sector),
    ensures
        sector is Ok <==> size > 0,
        sector matches Ok(s) ==> s.offset == offset && s.size.held() == size,
{
}

/// Sectors are ordered by their offsets.
pub proof fn law_sectors_are_ordered_by_offset(a: Sector, b: Sector, order: Ordering)
    requires
        call_ensures(Sector::cmp, (&a, &b), order),
    ensures
        (order == Ordering::Less) == (a.offset < b.offset),
        (order == Ordering::Equal) == (a.offset == b.offset),
        (order == Ordering::Greater) == (a.offset > b.offset),
        a.precedence(&b) == order,
{
}

/// Sectors are equal where they cover the same bytes.
pub proof fn law_sectors_are_equal_where_they_cover_the_same(a: Sector, b: Sector, same: bool)
    requires
        call_ensures(<Sector as PartialEq>::eq, (&a, &b), same),
    ensures
        same == (a.offset == b.offset && a.size.held() == b.size.held()),
{
    assert(a.size.held() == b.size.held() ==> a.size == b.size) by {
        assert(crate::nonzero::NonZero::of(a.size.held()) == a.size);
        assert(crate::nonzero::NonZero::of(b.size.held()) == b.size);
    }
}

/// A region takes its length, its payload and as many bytes as fill up a multiple of eight, and nothing of
/// a source that is too short.
pub proof fn law_regions_fill_multiples_of_eight(src: Seq<u8>)
    ensures
        match sized(src) {
            (Ok(payload), rest) => {
                &&& rest.len() <= src.len()
                &&& rest == src.skip(src.len() - rest.len())
                &&& (src.len() - rest.len()) % 8 == 0
                &&& 8 + payload.len() <= src.len() - rest.len() < 16 + payload.len()
                &&& payload == src.subrange(8, 8 + payload.len() as int)
                &&& payload.len() == le_value(src.take(8))
            },
            (Err(_), rest) => rest == src,
        },
        src.len() < 8 ==> sized(src).0 == Err::<Seq<u8>, Error>(
            Error::Truncated { expected: 8, actual: src.len() as usize },
        ),
        src.len() >= 8 && le_value(src.take(8)) <= usize::MAX && src.len() >= 16 + le_value(src.take(8))
            ==> sized(src).0 is Ok,
{
    if src.len() >= 8 {
        lemma_le_value_bound(src.take(8));
        lemma_span_values();
        if let (Ok(payload), rest) = sized(src) {
            assert(rest =~= src.skip(src.len() - rest.len()));
            assert(payload =~= src.subrange(8, 8 + payload.len() as int));
        }
    }
}

} // verus!
