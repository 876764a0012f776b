//! Ranges of items.

use crate::order::{Ordered, Total};
use vstd::prelude::*;

verus! {

/// One end of a range.
#[derive(Debug, Clone, Copy)]
pub enum Bound<I> {
    /// The range reaches up to this item and holds it.
    Included(I),
    /// The range reaches up to this item and does not hold it.
    Excluded(I),
    /// The range has no such end.
    Unbounded,
}

/// A range of items.
#[derive(Debug, Clone, Copy)]
pub struct Bounds<I> {
    /// The lower end.
    pub start: Bound<I>,
    /// The upper end.
    pub end: Bound<I>,
}

impl<I> Bounds<I> {
    /// The items from `start` up to but not including `end`.
    pub fn between(start: I, end: I) -> (bounds: Self)
        ensures
            bounds == (Bounds { start: Bound::Included(start), end: Bound::Excluded(end) }),
    {
        Bounds { start: Bound::Included(start), end: Bound::Excluded(end) }
    }

    /// The items from `start` up to and including `end`.
    pub fn closed(start: I, end: I) -> (bounds: Self)
        ensures
            bounds == (Bounds { start: Bound::Included(start), end: Bound::Included(end) }),
    {
        Bounds { start: Bound::Included(start), end: Bound::Included(end) }
    }

    /// The items from `start` on.
    pub fn from_start(start: I) -> (bounds: Self)
        ensures
            bounds == (Bounds { start: Bound::Included(start), end: Bound::Unbounded }),
    {
        Bounds { start: Bound::Included(start), end: Bound::Unbounded }
    }

    /// The items up to but not including `end`.
    pub fn below(end: I) -> (bounds: Self)
        ensures
            bounds == (Bounds { start: Bound::Unbounded, end: Bound::Excluded(end) }),
    {
        Bounds { start: Bound::Unbounded, end: Bound::Excluded(end) }
    }

    /// The items up to and including `end`.
    pub fn through(end: I) -> (bounds: Self)
        ensures
            bounds == (Bounds { start: Bound::Unbounded, end: Bound::Included(end) }),
    {
        Bounds { start: Bound::Unbounded, end: Bound::Included(end) }
    }

    /// All items.
    pub fn all() -> (bounds: Self)
        ensures
            bounds == (Bounds::<I> { start: Bound::Unbounded, end: Bound::Unbounded }),
    {
        Bounds { start: Bound::Unbounded, end: Bound::Unbounded }
    }
}

impl<I: Ordered> Bounds<I> {
    /// Whether the range holds `item`.
    pub open spec fn holds(&self, item: I::V) -> bool {
        &&& match self.start {
            Bound::Included(s) => I::within(s.deep_view(), item),
            Bound::Excluded(s) => I::below(s.deep_view(), item),
            Bound::Unbounded => true,
        }
        &&& match self.end {
            Bound::Included(e) => I::within(item, e.deep_view()),
            Bound::Excluded(e) => I::below(item, e.deep_view()),
            Bound::Unbounded => true,
        }
    }

    /// Whether the range lies wholly outside the span from `min` to `max`.
    pub open spec fn misses(&self, min: I::V, max: I::V) -> bool {
        ||| match self.end {
            Bound::Included(e) => I::below(e.deep_view(), min),
            Bound::Excluded(e) => I::within(e.deep_view(), min),
            Bound::Unbounded => false,
        }
        ||| match self.start {
            Bound::Included(s) => I::below(max, s.deep_view()),
            Bound::Excluded(s) => I::within(max, s.deep_view()),
            Bound::Unbounded => false,
        }
    }

    /// Whether the range holds `item`.
    pub fn contains(&self, item: &I) -> (holds: bool)
        ensures
            holds == self.holds(item.deep_view()),
    {
        let above: bool = match &self.start {
            Bound::Included(s) => s.at_most(item),
            Bound::Excluded(s) => s.less(item),
            Bound::Unbounded => true,
        };
        let below: bool = match &self.end {
            Bound::Included(e) => item.at_most(e),
            Bound::Excluded(e) => item.less(e),
            Bound::Unbounded => true,
        };
        above && below
    }

    /// A range that lies outside a span holds nothing that the span holds.
    pub proof fn law_missed_span_holds_nothing(&self, min: I::V, max: I::V, item: I::V)
        requires
            self.misses(min, max),
            I::within(min, item),
            I::within(item, max),
        ensures
            !self.holds(item),
    {
        match self.end {
            Bound::Included(e) => {
                I::chain(e.deep_view(), min, item);
                I::chain(item, e.deep_view(), item);
                I::chain(e.deep_view(), item, e.deep_view());
            },
            Bound::Excluded(e) => {
                I::chain(e.deep_view(), min, item);
                I::chain(item, e.deep_view(), item);
            },
            Bound::Unbounded => {},
        }
        match self.start {
            Bound::Included(s) => {
                I::chain(item, max, s.deep_view());
                I::chain(s.deep_view(), item, s.deep_view());
                I::chain(item, s.deep_view(), item);
            },
            Bound::Excluded(s) => {
                I::chain(item, max, s.deep_view());
                I::chain(s.deep_view(), item, s.deep_view());
            },
            Bound::Unbounded => {},
        }
    }
}

impl<I> From<core::ops::Range<I>> for Bounds<I> {
    fn from(range: core::ops::Range<I>) -> (bounds: Self) {
        Bounds { start: Bound::Included(range.start), end: Bound::Excluded(range.end) }
    }
}

impl<I> vstd::std_specs::convert::FromSpecImpl<core::ops::Range<I>> for Bounds<I> {
    open spec fn obeys_from_spec() -> bool {
        true
    }

    open spec fn from_spec(range: core::ops::Range<I>) -> Self {
        Bounds { start: Bound::Included(range.start), end: Bound::Excluded(range.end) }
    }
}

// ---------------------------------------------------------------- laws

/// What a range says of an item is what the comparisons of the item with its ends say: it holds an
/// included end and does not hold an excluded one.
pub proof fn law_ranges_agree_with_comparisons<I: Ordered>(
    a: I,
    b: I,
    item: I,
    above: (bool, bool),
    below: (bool, bool),
    ranges: (Bounds<I>, Bounds<I>, Bounds<I>, Bounds<I>, Bounds<I>, Bounds<I>),
    held: (bool, bool, bool, bool, bool, bool),
)
    requires
        call_ensures(I::at_most, (&a, &item), above.0),
        call_ensures(I::less, (&a, &item), above.1),
        call_ensures(I::at_most, (&item, &b), below.0),
        call_ensures(I::less, (&item, &b), below.1),
        call_ensures(Bounds::<I>::between, (a, b), ranges.0),
        call_ensures(Bounds::<I>::closed, (a, b), ranges.1),
        call_ensures(Bounds::<I>::from_start, (a,), ranges.2),
        call_ensures(Bounds::<I>::below, (b,), ranges.3),
        call_ensures(Bounds::<I>::through, (b,), ranges.4),
        call_ensures(Bounds::<I>::all, (), ranges.5),
        call_ensures(Bounds::<I>::contains, (&ranges.0, &item), held.0),
        call_ensures(Bounds::<I>::contains, (&ranges.1, &item), held.1),
        call_ensures(Bounds::<I>::contains, (&ranges.2, &item), held.2),
        call_ensures(Bounds::<I>::contains, (&ranges.3, &item), held.3),
        call_ensures(Bounds::<I>::contains, (&ranges.4, &item), held.4),
        call_ensures(Bounds::<I>::contains, (&ranges.5, &item), held.5),
    ensures
        held.0 == (above.0 && below.1),
        held.1 == (above.0 && below.0),
        held.2 == above.0,
        held.3 == below.1,
        held.4 == below.0,
        held.5,
{
}

/// A range whose ends are given one by one holds an item if and only if each end admits it: an included
/// end admits what is not on the far side of it, an excluded one what is on the near side.
pub proof fn law_each_end_admits<I: Total>(range: Bounds<I>, item: I, held: bool)
    requires
        call_ensures(Bounds::<I>::contains, (&range, &item), held),
    ensures
        held == ({
            let x = item.deep_view();
            &&& range.start matches Bound::Included(s) ==> !I::below(x, s.deep_view())
            &&& range.start matches Bound::Excluded(s) ==> !I::within(x, s.deep_view())
            &&& range.end matches Bound::Included(e) ==> !I::below(e.deep_view(), x)
            &&& range.end matches Bound::Excluded(e) ==> !I::within(e.deep_view(), x)
        }),
        range.holds(item.deep_view()) == held,
{
    let x = item.deep_view();
    match range.start {
        Bound::Included(s) => I::total(x, s.deep_view()),
        Bound::Excluded(s) => I::total(s.deep_view(), x),
        Bound::Unbounded => {},
    }
    match range.end {
        Bound::Included(e) => I::total(e.deep_view(), x),
        Bound::Excluded(e) => I::total(x, e.deep_view()),
        Bound::Unbounded => {},
    }
}

/// A closed range holds both of its ends, unless they are in the wrong order.
pub proof fn law_closed_ranges_hold_their_ends<I: Total>(
    a: I,
    b: I,
    range: Bounds<I>,
    held: (bool, bool),
)
    requires
        call_ensures(Bounds::<I>::closed, (a, b), range),
        call_ensures(Bounds::<I>::contains, (&range, &a), held.0),
        call_ensures(Bounds::<I>::contains, (&range, &b), held.1),
    ensures
        held.0 == I::within(a.deep_view(), b.deep_view()),
        held.1 == I::within(a.deep_view(), b.deep_view()),
{
    I::total(a.deep_view(), a.deep_view());
    I::total(b.deep_view(), b.deep_view());
}

/// A range converted from a half-open one holds what that holds.
pub proof fn law_converted_ranges_are_half_open<I: Total>(
    range: core::ops::Range<I>,
    converted: Bounds<I>,
    item: I,
    held: bool,
)
    requires
        call_ensures(<Bounds<I> as From<core::ops::Range<I>>>::from, (range,), converted),
        call_ensures(Bounds::<I>::contains, (&converted, &item), held),
    ensures
        held == (!I::below(item.deep_view(), range.start.deep_view()) && !I::within(
            range.end.deep_view(),
            item.deep_view(),
        )),
{
    I::total(item.deep_view(), range.start.deep_view());
    I::total(item.deep_view(), range.end.deep_view());
}

/// Whether the ends of a range leave an item between them, as far as the order decides it: with two
/// excluded ends that depends on which items there are.
pub open spec fn inhabited<I: Ordered>(range: Bounds<I>) -> bool {
    match (range.start, range.end) {
        (Bound::Included(s), Bound::Included(e)) => I::within(s.deep_view(), e.deep_view()),
        (Bound::Included(s), Bound::Excluded(e)) => I::below(s.deep_view(), e.deep_view()),
        (Bound::Excluded(s), Bound::Included(e)) => I::below(s.deep_view(), e.deep_view()),
        (Bound::Excluded(_), Bound::Excluded(_)) => false,
        _ => true,
    }
}

/// A span of items is told apart from a range if and only if no item of the span can lie in the range.
pub proof fn law_spans_are_told_apart_exactly<I: Total>(
    min: I,
    max: I,
    range: Bounds<I>,
    disjoint: bool,
)
    requires
        call_ensures(crate::manifest::buffer::Buffer::disjoint::<I>, (&min, &max, &range), disjoint),
        I::within(min.deep_view(), max.deep_view()),
    ensures
        disjoint ==> forall|item: I::V|
            I::within(min.deep_view(), item) && I::within(item, max.deep_view()) ==> !(
            #[trigger] range.holds(item)),
        !disjoint && inhabited(range) ==> exists|item: I::V|
            I::within(min.deep_view(), item) && I::within(item, max.deep_view())
                && #[trigger] range.holds(item),
        range.start is Unbounded && range.end is Unbounded ==> !disjoint,
{
    let (lo, hi) = (min.deep_view(), max.deep_view());
    if disjoint {
        assert forall|item: I::V| I::within(lo, item) && I::within(item, hi) implies !(
        #[trigger] range.holds(item)) by {
            range.law_missed_span_holds_nothing(lo, hi, item);
        }
    } else if inhabited(range) {
        I::total(lo, lo);
        I::total(hi, hi);
        let item = match range.start {
            Bound::Included(s) => {
                I::total(lo, s.deep_view());
                I::total(s.deep_view(), lo);
                I::total(s.deep_view(), s.deep_view());
                I::total(hi, s.deep_view());
                I::total(s.deep_view(), hi);
                if I::within(lo, s.deep_view()) {
                    s.deep_view()
                } else {
                    lo
                }
            },
            Bound::Excluded(s) => {
                I::total(hi, s.deep_view());
                I::total(s.deep_view(), hi);
                match range.end {
                    Bound::Included(e) => {
                        I::total(hi, e.deep_view());
                        I::total(e.deep_view(), hi);
                        I::total(e.deep_view(), e.deep_view());
                        I::total(lo, e.deep_view());
                        I::total(e.deep_view(), lo);
                        if I::within(e.deep_view(), hi) {
                            e.deep_view()
                        } else {
                            hi
                        }
                    },
                    _ => hi,
                }
            },
            Bound::Unbounded => lo,
        };
        match range.end {
            Bound::Included(e) => {
                I::total(e.deep_view(), lo);
                I::total(lo, e.deep_view());
            },
            Bound::Excluded(e) => {
                I::total(e.deep_view(), lo);
                I::total(lo, e.deep_view());
            },
            Bound::Unbounded => {},
        }
        assert(range.holds(item));
    }
}

} // verus!
