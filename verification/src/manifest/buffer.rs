//! Buffer descriptors.

use crate::bounds::{Bound, Bounds};
use crate::io::deserialize::Deserialize;
use crate::io::error::Error;
use crate::io::region::Sector;
use crate::nonzero::NonZeroU64;
use crate::order::Ordered;
use crate::read::decode::Decode;
use crate::read::decoder::{first, first_of, Decoder};
use crate::read::evaluate::Evaluate;
use std::cmp::Ordering;
use vstd::prelude::*;

verus! {

/// A buffer descriptor: where the buffer is located, how many items it stands for and, where its
/// items can be ordered, where the smallest and the largest of them are.
///
/// Descriptors are compared by location alone.
#[derive(Debug, Clone)]
pub enum Buffer {
    /// A buffer of exactly one item that is repeated.
    Compact {
        /// Location of the buffer.
        buffer: Sector,
        /// The number of repetitions.
        count: NonZeroU64,
    },
    /// A buffer of more than one distinct item without statistics.
    Basic {
        /// Location of the buffer.
        buffer: Sector,
        /// The number of items.
        count: NonZeroU64,
    },
    /// A buffer of more than one distinct item with statistics.
    Detailed {
        /// Location of the buffer.
        buffer: Sector,
        /// The number of items.
        count: NonZeroU64,
        /// Location of the smallest item.
        min: Sector,
        /// Location of the largest item.
        max: Sector,
    },
}

/// The item that starts the sector.
pub open spec fn statistic<'d, I: Deserialize<'d>>(sector: Sector, map: Seq<u8>) -> Result<
    I::V,
    Error,
> {
    match sector.covered(map) {
        Ok(bytes) => I::parse(bytes).0,
        Err(e) => Err(e),
    }
}

/// The statistics of a sector pair: an error in the first comes before one in the second.
pub open spec fn statistics<'d, I: Deserialize<'d>>(min: Sector, max: Sector, map: Seq<u8>) -> Result<
    (I::V, I::V),
    Error,
> {
    match (statistic::<I>(min, map), statistic::<I>(max, map)) {
        (Err(e), _) => Err(e),
        (_, Err(e)) => Err(e),
        (Ok(lo), Ok(hi)) => Ok((lo, hi)),
    }
}

/// Decodes the item that starts the sector.
fn resolve<'d, I: Deserialize<'d>>(sector: &Sector, map: &'d [u8]) -> (item: Result<I, Error>)
    ensures
        match item {
            Ok(i) => statistic::<I>(*sector, map@) == Ok::<I::V, Error>(i.deep_view()),
            Err(e) => statistic::<I>(*sector, map@) == Err::<I::V, Error>(e),
        },
{
    match sector.slice(map) {
        Ok(bytes) => {
            let mut bytes: &'d [u8] = bytes;
            I::deserialize(&mut bytes)
        },
        Err(e) => Err(e),
    }
}

/// Decodes the statistics of a sector pair.
pub fn resolve_both<'d, I: Deserialize<'d>>(min: &Sector, max: &Sector, map: &'d [u8]) -> (span:
    Result<(I, I), Error>)
    ensures
        match span {
            Ok((lo, hi)) => statistics::<I>(*min, *max, map@) == Ok::<(I::V, I::V), Error>(
                (lo.deep_view(), hi.deep_view()),
            ),
            Err(e) => statistics::<I>(*min, *max, map@) == Err::<(I::V, I::V), Error>(e),
        },
{
    let lo: I = match resolve(min, map) {
        Ok(lo) => lo,
        Err(e) => return Err(e),
    };
    match resolve(max, map) {
        Ok(hi) => Ok((lo, hi)),
        Err(e) => Err(e),
    }
}

/// The first item of the source that the sector holds.
pub open spec fn leading<'d, I: Decode<'d>>(sector: Sector, map: Seq<u8>) -> Result<I::V, Error> {
    match sector.covered(map) {
        Err(e) => Err(e),
        Ok(bytes) => match I::Src::parse(bytes).0 {
            Err(e) => Err(e),
            Ok(src) => match I::Src::started(src) {
                Err(e) => Err(e),
                Ok(state) => first_of::<I, <I::Src as Decoder<'d, I>>::Cursor>(state),
            },
        },
    }
}

/// Decodes the first item of the source that the sector holds.
fn lead<'d, I: Decode<'d>>(sector: &Sector, map: &'d [u8]) -> (item: Result<I, Error>)
    ensures
        match item {
            Ok(i) => leading::<I>(*sector, map@) == Ok::<I::V, Error>(i.deep_view()),
            Err(e) => leading::<I>(*sector, map@) == Err::<I::V, Error>(e),
        },
{
    let mut bytes: &'d [u8] = match sector.slice(map) {
        Ok(bytes) => bytes,
        Err(e) => return Err(e),
    };
    let src = match I::Src::deserialize(&mut bytes) {
        Ok(src) => src,
        Err(e) => return Err(e),
    };
    match src.iter() {
        Ok(cursor) => first(cursor),
        Err(e) => Err(e),
    }
}

/// Whether `test` can be called on `op`.
pub open spec fn callable<Op, F: Fn(&Op) -> bool>(test: &F, op: &Op) -> bool {
    call_requires(*test, (op,))
}

/// Whether `test` can answer `verdict` on `op`.
pub open spec fn answers<Op, F: Fn(&Op) -> bool>(test: &F, op: &Op, verdict: bool) -> bool {
    call_ensures(*test, (op,), verdict)
}

impl Buffer {
    /// The logical number of items.
    pub open spec fn length(&self) -> u64 {
        match *self {
            Buffer::Compact { count, .. } => count.held(),
            Buffer::Basic { count, .. } => count.held(),
            Buffer::Detailed { count, .. } => count.held(),
        }
    }

    /// Where the buffer is located.
    pub open spec fn place(&self) -> Sector {
        match *self {
            Buffer::Compact { buffer, .. } => buffer,
            Buffer::Basic { buffer, .. } => buffer,
            Buffer::Detailed { buffer, .. } => buffer,
        }
    }

    /// The logical number of items, of which there is at least one.
    pub fn count(&self) -> (count: u64)
        ensures
            count == self.length(),
            count > 0,
    {
        match self {
            Buffer::Compact { count, .. } => count.get(),
            Buffer::Basic { count, .. } => count.get(),
            Buffer::Detailed { count, .. } => count.get(),
        }
    }

    /// Where the buffer is located.
    pub fn sector(&self) -> (sector: &Sector)
        ensures
            *sector == self.place(),
    {
        match self {
            Buffer::Compact { buffer, .. } => buffer,
            Buffer::Basic { buffer, .. } => buffer,
            Buffer::Detailed { buffer, .. } => buffer,
        }
    }

    /// Whether no item between `min` and `max` can lie within `bounds`.
    pub fn disjoint<I: Ordered>(min: &I, max: &I, bounds: &Bounds<I>) -> (disjoint: bool)
        ensures
            disjoint == bounds.misses(min.deep_view(), max.deep_view()),
    {
        let above: bool = match &bounds.end {
            Bound::Included(inc) => inc.less(min),
            Bound::Excluded(exc) => exc.at_most(min),
            Bound::Unbounded => false,
        };
        let below: bool = match &bounds.start {
            Bound::Included(inc) => max.less(inc),
            Bound::Excluded(exc) => max.at_most(exc),
            Bound::Unbounded => false,
        };
        above || below
    }

    /// Whether the buffer may hold an item that satisfies a filter, where `predicate` decides that
    /// from the smallest and the largest item. A buffer without statistics may.
    pub fn test<'d, I: Deserialize<'d>, P: FnOnce(&I, &I) -> bool>(
        &self,
        predicate: P,
        map: &'d [u8],
    ) -> (keep: Result<bool, Error>)
        requires
            *self matches Buffer::Detailed { min, max, .. } ==> forall|lo: &I, hi: &I|
                statistics::<I>(min, max, map@) == Ok::<_, Error>((lo.deep_view(), hi.deep_view()))
                    ==> #[trigger] call_requires(predicate, (lo, hi)),
        ensures
            match *self {
                Buffer::Detailed { min, max, .. } => match statistics::<I>(min, max, map@) {
                    Err(e) => keep == Err::<bool, Error>(e),
                    Ok((a, b)) => exists|lo: &I, hi: &I, verdict: bool|
                        lo.deep_view() == a && hi.deep_view() == b && #[trigger] call_ensures(
                            predicate,
                            (lo, hi),
                            verdict,
                        ) && keep == Ok::<bool, Error>(verdict),
                },
                _ => keep == Ok::<bool, Error>(true),
            },
    {
        match self {
            Buffer::Detailed { min, max, .. } => {
                match resolve_both::<I>(min, max, map) {
                    Ok((lo, hi)) => {
                        let keep: bool = predicate(&lo, &hi);
                        assert(call_ensures(predicate, (&lo, &hi), keep));
                        Ok(keep)
                    },
                    Err(e) => Err(e),
                }
            },
            _ => Ok(true),
        }
    }

    /// Whether the repeated item of a compact buffer satisfies `test`. Any other buffer may hold one
    /// that does.
    pub fn test_exact<'d, I: Decode<'d> + Evaluate<Op>, Op: DeepView, F: Fn(&Op) -> bool>(
        &self,
        test: &F,
        map: &'d [u8],
    ) -> (keep: Result<bool, Error>)
        requires
            self is Compact ==> forall|op: &Op| #[trigger] callable(test, op),
        ensures
            self is Compact ==> match leading::<I>(self.place(), map@) {
                Err(e) => keep == Err::<bool, Error>(e),
                Ok(item) => match I::operand(item) {
                    None => keep == Ok::<bool, Error>(false),
                    Some(v) => exists|op: &Op, verdict: bool|
                        op.deep_view() == v && #[trigger] answers(test, op, verdict) && keep
                            == Ok::<bool, Error>(verdict),
                },
            },
            !(self is Compact) ==> keep == Ok::<bool, Error>(true),
    {
        match self {
            Buffer::Compact { buffer, .. } => {
                match lead::<I>(buffer, map) {
                    Ok(item) => {
                        let filter = |op: &Op| -> (verdict: bool)
                            requires
                                callable(test, op),
                            ensures
                                answers(test, op, verdict),
                        {
                            test(op)
                        };
                        let keep: bool = item.evaluate(filter);
                        proof {
                            if let Some(v) = I::operand(item.deep_view()) {
                                let op = choose|op: &Op|
                                    I::operand(item.deep_view()) == Some(op.deep_view())
                                        && #[trigger] call_ensures(filter, (op,), keep);
                                assert(answers(test, op, keep));
                            }
                        }
                        Ok(keep)
                    },
                    Err(e) => Err(e),
                }
            },
            _ => Ok(true),
        }
    }

    /// Compares the locations of two buffers.
    pub fn cmp(&self, other: &Self) -> (order: Ordering)
        ensures
            order == self.place().precedence(&other.place()),
    {
        self.sector().cmp(other.sector())
    }
}

impl PartialEq for Buffer {
    fn eq(&self, other: &Self) -> (same: bool) {
        *self.sector() == *other.sector()
    }
}

impl vstd::std_specs::cmp::PartialEqSpecImpl for Buffer {
    open spec fn obeys_eq_spec() -> bool {
        true
    }

    open spec fn eq_spec(&self, other: &Self) -> bool {
        self.place() == other.place()
    }
}

impl PartialOrd for Buffer {
    fn partial_cmp(&self, other: &Self) -> (order: Option<Ordering>) {
        Some(self.cmp(other))
    }
}

impl vstd::std_specs::cmp::PartialOrdSpecImpl for Buffer {
    open spec fn obeys_partial_cmp_spec() -> bool {
        true
    }

    open spec fn partial_cmp_spec(&self, other: &Self) -> Option<Ordering> {
        Some(self.place().precedence(&other.place()))
    }
}

// ---------------------------------------------------------------- laws

/// A buffer of any kind has the number of items and the location that it was made with.
pub proof fn law_buffers_keep_what_they_are_given(
    place: Sector,
    n: NonZeroU64,
    stats: (Sector, Sector),
    counts: (u64, u64, u64),
    sectors: (&Sector, &Sector, &Sector),
)
    requires
        ({
            let compact = Buffer::Compact { buffer: place, count: n };
            let basic = Buffer::Basic { buffer: place, count: n };
            let detailed = Buffer::Detailed { buffer: place, count: n, min: stats.0, max: stats.1 };
            &&& call_ensures(Buffer::count, (&compact,), counts.0)
            &&& call_ensures(Buffer::count, (&basic,), counts.1)
            &&& call_ensures(Buffer::count, (&detailed,), counts.2)
            &&& call_ensures(Buffer::sector, (&compact,), sectors.0)
            &&& call_ensures(Buffer::sector, (&basic,), sectors.1)
            &&& call_ensures(Buffer::sector, (&detailed,), sectors.2)
        }),
    ensures
        counts == (n.held(), n.held(), n.held()),
        *sectors.0 == place,
        *sectors.1 == place,
        *sectors.2 == place,
{
}

/// Buffers are equal where their locations are, whatever else they record.
pub proof fn law_buffers_are_equal_by_location(a: Buffer, b: Buffer, x: &Sector, y: &Sector, same: bool)
    requires
        call_ensures(Buffer::sector, (&a,), x),
        call_ensures(Buffer::sector, (&b,), y),
        call_ensures(<Buffer as PartialEq>::eq, (&a, &b), same),
    ensures
        same == (*x == *y),
{
}

/// Buffers are ordered by the offset of their locations, whatever else they record.
pub proof fn law_buffers_are_ordered_by_location(
    a: Buffer,
    b: Buffer,
    x: &Sector,
    y: &Sector,
    order: Ordering,
)
    requires
        call_ensures(Buffer::sector, (&a,), x),
        call_ensures(Buffer::sector, (&b,), y),
        call_ensures(Buffer::cmp, (&a, &b), order),
    ensures
        (order == Ordering::Less) == (x.offset < y.offset),
        (order == Ordering::Equal) == (x.offset == y.offset),
        (order == Ordering::Greater) == (x.offset > y.offset),
{
}

/// The statistics of a buffer are what its two sectors start with: the smallest item comes from the first,
/// the largest from the second.
pub proof fn law_statistics_are_what_their_sectors_start_with<'d, I: Deserialize<'d>>(
    min: Sector,
    max: Sector,
    map: &'d [u8],
    low: (Seq<u8>, I::V),
    high: (Seq<u8>, I::V),
    span: Result<(I, I), Error>,
)
    requires
        min.covered(map@) == Ok::<Seq<u8>, Error>(low.0),
        max.covered(map@) == Ok::<Seq<u8>, Error>(high.0),
        I::parse(low.0).0 == Ok::<I::V, Error>(low.1),
        I::parse(high.0).0 == Ok::<I::V, Error>(high.1),
        call_ensures(resolve_both::<I>, (&min, &max, map), span),
    ensures
        span matches Ok((lo, hi)) && lo.deep_view() == low.1 && hi.deep_view() == high.1,
        statistics::<I>(min, max, map@) == Ok::<_, Error>((low.1, high.1)),
{
}

/// A test by statistics asks of the smallest and the largest item, in this order, and only of a buffer that
/// has them: any other buffer may hold an item that satisfies it.
pub proof fn law_tests_by_statistics_ask_of_the_span<'d, I: Deserialize<'d>, P: FnOnce(&I, &I) -> bool>(
    buffer: Buffer,
    predicate: P,
    map: &'d [u8],
    span: (I::V, I::V),
    keep: Result<bool, Error>,
)
    requires
        call_ensures(Buffer::test::<I, P>, (&buffer, predicate, map), keep),
        buffer matches Buffer::Detailed { min, max, .. } ==> statistics::<I>(min, max, map@) == Ok::<
            _,
            Error,
        >(span),
    ensures
        !(buffer is Detailed) ==> keep == Ok::<bool, Error>(true),
        buffer is Detailed ==> keep is Ok && exists|lo: &I, hi: &I|
            lo.deep_view() == span.0 && hi.deep_view() == span.1 && #[trigger] call_ensures(
                predicate,
                (lo, hi),
                keep->Ok_0,
            ),
{
    if buffer is Detailed {
        let (lo, hi, verdict) = choose|lo: &I, hi: &I, verdict: bool|
            lo.deep_view() == span.0 && hi.deep_view() == span.1 && #[trigger] call_ensures(
                predicate,
                (lo, hi),
                verdict,
            ) && keep == Ok::<bool, Error>(verdict);
        assert(call_ensures(predicate, (lo, hi), keep->Ok_0));
    }
}

/// An exact test asks of the repeated item of a compact buffer, and any other buffer may hold an item that
/// satisfies it.
pub proof fn law_exact_tests_ask_of_the_repeated_item<
    'd,
    I: Decode<'d> + Evaluate<Op>,
    Op: DeepView,
    F: Fn(&Op) -> bool,
>(buffer: Buffer, test: F, map: &'d [u8], item: I::V, keep: Result<bool, Error>)
    requires
        call_ensures(Buffer::test_exact::<I, Op, F>, (&buffer, &test, map), keep),
        leading::<I>(buffer.place(), map@) == Ok::<_, Error>(item),
    ensures
        !(buffer is Compact) ==> keep == Ok::<bool, Error>(true),
        buffer is Compact && I::operand(item) is None ==> keep == Ok::<bool, Error>(false),
        buffer is Compact ==> (I::operand(item) matches Some(v) ==> keep is Ok && exists|op: &Op|
            op.deep_view() == v && #[trigger] call_ensures(test, (op,), keep->Ok_0)),
{
    if buffer is Compact {
        if let Some(v) = I::operand(item) {
            let (op, verdict) = choose|op: &Op, verdict: bool|
                op.deep_view() == v && #[trigger] answers(&test, op, verdict) && keep == Ok::<
                    bool,
                    Error,
                >(verdict);
            assert(call_ensures(test, (op,), keep->Ok_0));
        }
    }
}

} // verus!
