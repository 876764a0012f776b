//! The tests that filters make.

use crate::bit_match::BitMatch;
use crate::bounds::Bounds;
use crate::hashed::{empty_set, enter, keyed, member};
use crate::manifest::buffer::Buffer;
use crate::order::{Ordered, Total};
use crate::read::evaluate::{IsOption, Predicate};
use crate::read::item::Item;
use std::collections::HashSet;
use std::hash::Hash;
use vstd::prelude::*;
use xxhash_rust::xxh3::Xxh3Builder;

verus! {

/// A predicate that can tell, of the items between two, that none satisfies it.
pub trait Span<I: Ordered>: Predicate<I> {
    /// Whether an item between `min` and `max` may satisfy the predicate.
    spec fn spans(&self, min: I::V, max: I::V) -> bool;

    /// Whether an item between `min` and `max` may satisfy the predicate.
    fn may_hold(&self, min: &I, max: &I) -> (may: bool)
        requires
            self.ready(),
        ensures
            may == self.spans(min.deep_view(), max.deep_view()),
    ;

    /// No item that satisfies the predicate is missed.
    proof fn sound(&self, min: I::V, max: I::V, item: I::V)
        requires
            I::within(min, item),
            I::within(item, max),
            self.admits(item),
        ensures
            self.spans(min, max),
    ;
}

// ---------------------------------------------------------------- ranges

impl<I: Ordered> Predicate<I> for Bounds<I> {
    open spec fn ready(&self) -> bool {
        true
    }

    open spec fn admits(&self, item: I::V) -> bool {
        self.holds(item)
    }

    fn test(&self, item: &I) -> (verdict: bool) {
        self.contains(item)
    }
}

impl<I: Ordered> Span<I> for Bounds<I> {
    open spec fn spans(&self, min: I::V, max: I::V) -> bool {
        !self.misses(min, max)
    }

    fn may_hold(&self, min: &I, max: &I) -> (may: bool) {
        !Buffer::disjoint(min, max, self)
    }

    proof fn sound(&self, min: I::V, max: I::V, item: I::V) {
        if self.misses(min, max) {
            self.law_missed_span_holds_nothing(min, max, item);
        }
    }
}

// ---------------------------------------------------------------- one item

/// Admits the items that are bit-identical to one.
#[derive(Debug)]
pub struct Exact<I> {
    /// The item to match.
    pub item: I,
}

impl<I: BitMatch> Predicate<I> for Exact<I> {
    open spec fn ready(&self) -> bool {
        true
    }

    open spec fn admits(&self, item: I::V) -> bool {
        self.item.deep_view() == item
    }

    fn test(&self, item: &I) -> (verdict: bool) {
        self.item.same(item)
    }
}

impl<I: BitMatch + Ordered> Span<I> for Exact<I> {
    open spec fn spans(&self, min: I::V, max: I::V) -> bool {
        I::within(min, self.item.deep_view()) && I::within(self.item.deep_view(), max)
    }

    fn may_hold(&self, min: &I, max: &I) -> (may: bool) {
        min.at_most(&self.item) && self.item.at_most(max)
    }

    proof fn sound(&self, min: I::V, max: I::V, item: I::V) {
    }
}

// ---------------------------------------------------------------- several items

/// Whether one of `items` is `item`.
pub open spec fn listed<I: DeepView>(items: Seq<I>, item: I::V) -> bool {
    exists|i: int| 0 <= i < items.len() && (#[trigger] items[i]).deep_view() == item
}

/// Whether one of `items` lies between `min` and `max`.
pub open spec fn any_between<I: Ordered>(items: Seq<I>, min: I::V, max: I::V) -> bool {
    exists|i: int|
        0 <= i < items.len() && I::within(min, (#[trigger] items[i]).deep_view()) && I::within(
            items[i].deep_view(),
            max,
        )
}

/// Whether one of `items` lies between `min` and `max`.
fn has_between<I: Ordered>(items: &Vec<I>, min: &I, max: &I) -> (between: bool)
    ensures
        between == any_between(items@, min.deep_view(), max.deep_view()),
{
    let mut i: usize = 0;
    while i < items.len()
        invariant
            i <= items@.len(),
            forall|j: int|
                0 <= j < i ==> !(I::within(min.deep_view(), (#[trigger] items@[j]).deep_view())
                    && I::within(items@[j].deep_view(), max.deep_view())),
        decreases items@.len() - i,
    {
        if min.at_most(&items[i]) && items[i].at_most(max) {
            assert(I::within(min.deep_view(), items@[i as int].deep_view()));
            return true;
        }
        i += 1;
    }
    false
}

/// Admits the items that are bit-identical to one of several, which are scanned.
#[derive(Debug)]
pub struct Candidates<I> {
    /// The items to match.
    pub items: Vec<I>,
}

impl<I: BitMatch> Predicate<I> for Candidates<I> {
    open spec fn ready(&self) -> bool {
        true
    }

    open spec fn admits(&self, item: I::V) -> bool {
        listed(self.items@, item)
    }

    fn test(&self, item: &I) -> (verdict: bool) {
        let mut i: usize = 0;
        while i < self.items.len()
            invariant
                i <= self.items@.len(),
                forall|j: int|
                    0 <= j < i ==> (#[trigger] self.items@[j]).deep_view() != item.deep_view(),
            decreases self.items@.len() - i,
        {
            if item.same(&self.items[i]) {
                assert(self.items@[i as int].deep_view() == item.deep_view());
                return true;
            }
            i += 1;
        }
        false
    }
}

impl<I: BitMatch + Ordered> Span<I> for Candidates<I> {
    open spec fn spans(&self, min: I::V, max: I::V) -> bool {
        any_between(self.items@, min, max)
    }

    fn may_hold(&self, min: &I, max: &I) -> (may: bool) {
        has_between(&self.items, min, max)
    }

    proof fn sound(&self, min: I::V, max: I::V, item: I::V) {
    }
}

/// Whether no item is greater than a later one.
pub open spec fn in_order<I: Ordered>(items: Seq<I>) -> bool {
    forall|i: int, j: int|
        0 <= i < j < items.len() ==> I::within(
            (#[trigger] items[i]).deep_view(),
            (#[trigger] items[j]).deep_view(),
        )
}

/// How many of `items`, which are in order, are less than `item`.
pub(crate) fn count_less<I: Total>(items: &Vec<I>, item: &I) -> (n: usize)
    requires
        in_order(items@),
    ensures
        n <= items@.len(),
        forall|i: int|
            0 <= i < n ==> I::below((#[trigger] items@[i]).deep_view(), item.deep_view()),
        forall|i: int|
            n <= i < items@.len() ==> !I::below(
                (#[trigger] items@[i]).deep_view(),
                item.deep_view(),
            ),
{
    let mut low: usize = 0;
    let mut high: usize = items.len();
    while low < high
        invariant
            low <= high <= items@.len(),
            in_order(items@),
            forall|i: int|
                0 <= i < low ==> I::below((#[trigger] items@[i]).deep_view(), item.deep_view()),
            forall|i: int|
                high <= i < items@.len() ==> !I::below(
                    (#[trigger] items@[i]).deep_view(),
                    item.deep_view(),
                ),
        decreases high - low,
    {
        let mid: usize = low + (high - low) / 2;
        let ghost pivot = items@[mid as int].deep_view();
        if items[mid].less(item) {
            proof {
                assert forall|i: int| 0 <= i <= mid implies I::below(
                    (#[trigger] items@[i]).deep_view(),
                    item.deep_view(),
                ) by {
                    I::chain(items@[i].deep_view(), pivot, item.deep_view());
                }
            }
            low = mid + 1;
        } else {
            proof {
                assert forall|i: int| mid <= i < items@.len() implies !I::below(
                    (#[trigger] items@[i]).deep_view(),
                    item.deep_view(),
                ) by {
                    I::chain(pivot, items@[i].deep_view(), item.deep_view());
                }
            }
            high = mid;
        }
    }
    low
}

/// How many of `items`, which are in order, are at most `item`.
fn count_at_most<I: Total>(items: &Vec<I>, item: &I) -> (n: usize)
    requires
        in_order(items@),
    ensures
        n <= items@.len(),
        forall|i: int|
            0 <= i < n ==> I::within((#[trigger] items@[i]).deep_view(), item.deep_view()),
        forall|i: int|
            n <= i < items@.len() ==> !I::within(
                (#[trigger] items@[i]).deep_view(),
                item.deep_view(),
            ),
{
    let mut low: usize = 0;
    let mut high: usize = items.len();
    while low < high
        invariant
            low <= high <= items@.len(),
            in_order(items@),
            forall|i: int|
                0 <= i < low ==> I::within((#[trigger] items@[i]).deep_view(), item.deep_view()),
            forall|i: int|
                high <= i < items@.len() ==> !I::within(
                    (#[trigger] items@[i]).deep_view(),
                    item.deep_view(),
                ),
        decreases high - low,
    {
        let mid: usize = low + (high - low) / 2;
        let ghost pivot = items@[mid as int].deep_view();
        if items[mid].at_most(item) {
            proof {
                assert forall|i: int| 0 <= i <= mid implies I::within(
                    (#[trigger] items@[i]).deep_view(),
                    item.deep_view(),
                ) by {
                    I::chain(items@[i].deep_view(), pivot, item.deep_view());
                }
            }
            low = mid + 1;
        } else {
            proof {
                assert forall|i: int| mid <= i < items@.len() implies !I::within(
                    (#[trigger] items@[i]).deep_view(),
                    item.deep_view(),
                ) by {
                    I::chain(pivot, items@[i].deep_view(), item.deep_view());
                }
            }
            high = mid;
        }
    }
    low
}

/// Admits the items that equal one of several in order, which are bisected.
#[derive(Debug)]
pub struct Sorted<I> {
    /// The items to match.
    pub items: Vec<I>,
}

impl<I: Total> Predicate<I> for Sorted<I> {
    open spec fn ready(&self) -> bool {
        in_order(self.items@)
    }

    open spec fn admits(&self, item: I::V) -> bool {
        listed(self.items@, item)
    }

    fn test(&self, item: &I) -> (verdict: bool) {
        let at: usize = count_less(&self.items, item);
        proof {
            assert forall|i: int|
                0 <= i < self.items@.len() && (#[trigger] self.items@[i]).deep_view()
                    == item.deep_view() implies at < self.items@.len()
                && self.items@[at as int].deep_view() == item.deep_view() by {
                I::total(item.deep_view(), item.deep_view());
                I::total(self.items@[at as int].deep_view(), item.deep_view());
            }
            if at < self.items@.len() {
                I::total(self.items@[at as int].deep_view(), item.deep_view());
            }
        }
        at < self.items.len() && self.items[at].at_most(item)
    }
}

impl<I: Total> Span<I> for Sorted<I> {
    open spec fn spans(&self, min: I::V, max: I::V) -> bool {
        any_between(self.items@, min, max)
    }

    fn may_hold(&self, min: &I, max: &I) -> (may: bool) {
        let first: usize = count_less(&self.items, min);
        let last: usize = count_at_most(&self.items, max);
        proof {
            let (lo, hi) = (min.deep_view(), max.deep_view());
            assert forall|i: int|
                0 <= i < self.items@.len() && I::within(
                    lo,
                    (#[trigger] self.items@[i]).deep_view(),
                ) && I::within(self.items@[i].deep_view(), hi) implies first <= i < last by {
                I::total(self.items@[i].deep_view(), lo);
            }
            if first < last {
                I::total(self.items@[first as int].deep_view(), lo);
            }
        }
        first < last
    }

    proof fn sound(&self, min: I::V, max: I::V, item: I::V) {
    }
}

/// Admits the items that equal one of several, which are hashed.
pub struct Hashed<I> {
    items: Vec<I>,
    set: HashSet<I, Xxh3Builder>,
}

impl<I: Item + Eq + Hash> Hashed<I> {
    /// The items to match.
    pub closed spec fn held(self) -> Seq<I> {
        self.items@
    }

    /// Whether the hashed items are the items to match.
    pub closed spec fn filled(self) -> bool {
        forall|item: I| #[trigger] self.set@.contains(item) <==> listed(self.items@, item.deep_view())
    }

    /// Hashes `items`.
    pub fn new(items: Vec<I>) -> (hashed: Self)
        ensures
            hashed.held() == items@,
            keyed::<I>() ==> hashed.filled(),
    {
        let mut set: HashSet<I, Xxh3Builder> = empty_set();
        let mut i: usize = 0;
        while i < items.len()
            invariant
                i <= items@.len(),
                keyed::<I>() ==> forall|item: I| #[trigger]
                    set@.contains(item) <==> listed(items@.take(i as int), item.deep_view()),
            decreases items@.len() - i,
        {
            let ghost before = set@;
            let copy: I = items[i].duplicate();
            enter(&mut set, copy);
            proof {
                if keyed::<I>() {
                    assert(copy == items@[i as int]);
                    let (less, more) = (items@.take(i as int), items@.take(i + 1));
                    assert forall|item: I| #[trigger] set@.contains(item) <==> listed(
                        more,
                        item.deep_view(),
                    ) by {
                        assert(set@.contains(item) <==> before.contains(item) || item == copy);
                        if listed(less, item.deep_view()) {
                            let j = choose|j: int|
                                0 <= j < less.len() && (#[trigger] less[j]).deep_view()
                                    == item.deep_view();
                            assert(more[j] == less[j]);
                        }
                        if listed(more, item.deep_view()) {
                            let j = choose|j: int|
                                0 <= j < more.len() && (#[trigger] more[j]).deep_view()
                                    == item.deep_view();
                            if j < i {
                                assert(less[j] == more[j]);
                            }
                        }
                        if item == copy {
                            assert(more[i as int].deep_view() == item.deep_view());
                        }
                    }
                }
            }
            i += 1;
        }
        assert(items@.take(items@.len() as int) =~= items@);
        Hashed { items, set }
    }
}

impl<I: Item + Eq + Hash> Predicate<I> for Hashed<I> {
    open spec fn ready(&self) -> bool {
        keyed::<I>() && self.filled()
    }

    open spec fn admits(&self, item: I::V) -> bool {
        listed(self.held(), item)
    }

    fn test(&self, item: &I) -> (verdict: bool) {
        member(&self.set, item)
    }
}

impl<I: Item + Eq + Hash + Ordered> Span<I> for Hashed<I> {
    open spec fn spans(&self, min: I::V, max: I::V) -> bool {
        any_between(self.held(), min, max)
    }

    fn may_hold(&self, min: &I, max: &I) -> (may: bool) {
        has_between(&self.items, min, max)
    }

    proof fn sound(&self, min: I::V, max: I::V, item: I::V) {
    }
}

// ---------------------------------------------------------------- the rest

/// Admits what another predicate does not.
#[derive(Debug)]
pub struct Except<P> {
    /// The other predicate.
    pub predicate: P,
}

impl<I: DeepView, P: Predicate<I>> Predicate<I> for Except<P> {
    open spec fn ready(&self) -> bool {
        self.predicate.ready()
    }

    open spec fn admits(&self, item: I::V) -> bool {
        !self.predicate.admits(item)
    }

    fn test(&self, item: &I) -> (verdict: bool) {
        !self.predicate.test(item)
    }
}

/// Whether a closure can be called on every item, and answers the same on the same value.
pub open spec fn steady<I: DeepView, F: Fn(&I) -> bool>(filter: F) -> bool {
    &&& forall|item: &I| #[trigger] call_requires(filter, (item,))
    &&& forall|a: &I, b: &I, x: bool, y: bool|
        a.deep_view() == b.deep_view() && #[trigger] call_ensures(filter, (a,), x)
            && #[trigger] call_ensures(filter, (b,), y) ==> x == y
}

/// Whether a closure can hold of `item`.
pub open spec fn affirms<I: DeepView, F: Fn(&I) -> bool>(filter: F, item: I::V) -> bool {
    exists|i: &I| i.deep_view() == item && #[trigger] call_ensures(filter, (i,), true)
}

/// Admits what a closure says.
pub struct Closure<F> {
    /// The closure.
    pub filter: F,
}

impl<I: DeepView, F: Fn(&I) -> bool> Predicate<I> for Closure<F> {
    open spec fn ready(&self) -> bool {
        steady::<I, F>(self.filter)
    }

    open spec fn admits(&self, item: I::V) -> bool {
        affirms::<I, F>(self.filter, item)
    }

    fn test(&self, item: &I) -> (verdict: bool) {
        (self.filter)(item)
    }
}

/// Admits present items.
#[derive(Debug)]
pub struct Present;

impl<T: IsOption> Predicate<T> for Present {
    open spec fn ready(&self) -> bool {
        true
    }

    open spec fn admits(&self, item: T::V) -> bool {
        T::carried(item) is Some
    }

    fn test(&self, item: &T) -> (verdict: bool) {
        item.is_some()
    }
}

/// Admits absent items.
#[derive(Debug)]
pub struct Missing;

impl<T: IsOption> Predicate<T> for Missing {
    open spec fn ready(&self) -> bool {
        true
    }

    open spec fn admits(&self, item: T::V) -> bool {
        T::carried(item) is None
    }

    fn test(&self, item: &T) -> (verdict: bool) {
        item.is_none()
    }
}

// ---------------------------------------------------------------- laws

/// The scanned, the bisected and the hashed form of set membership admit the same items, and rule out
/// the same spans.
pub proof fn law_membership_forms_agree<I: Item + BitMatch + Total + Eq + Hash>(
    scanned: Candidates<I>,
    bisected: Sorted<I>,
    hashed: Hashed<I>,
    item: I::V,
    min: I::V,
    max: I::V,
)
    requires
        scanned.items@ == bisected.items@,
        scanned.items@ == hashed.held(),
    ensures
        scanned.admits(item) == bisected.admits(item),
        scanned.admits(item) == hashed.admits(item),
        scanned.spans(min, max) == bisected.spans(min, max),
        scanned.spans(min, max) == hashed.spans(min, max),
{
}

/// One item is matched by itself and by nothing else, and may lie in a span that holds it.
pub proof fn law_one_item_matches_itself<I: BitMatch + Ordered>(
    given: I,
    item: I,
    span: (I, I),
    verdict: bool,
    may: bool,
)
    requires
        call_ensures(<Exact<I> as Predicate<I>>::test, (&Exact { item: given }, &item), verdict),
        call_ensures(
            <Exact<I> as Span<I>>::may_hold,
            (&Exact { item: given }, &span.0, &span.1),
            may,
        ),
    ensures
        verdict == (item.deep_view() == given.deep_view()),
        may == (I::within(span.0.deep_view(), given.deep_view()) && I::within(
            given.deep_view(),
            span.1.deep_view(),
        )),
        (Exact { item: given }).admits(item.deep_view()) == (item.deep_view() == given.deep_view()),
{
}

/// Each form of set membership matches the items of the set and nothing else, and may match in a span if
/// and only if the span holds an item of the set.
pub proof fn law_sets_match_their_items<I: Item + BitMatch + Total + Eq + Hash>(
    items: Vec<I>,
    hashed: Hashed<I>,
    item: I,
    span: (I, I),
    verdicts: (bool, bool, bool),
    may: (bool, bool, bool),
)
    requires
        hashed.held() == items@,
        call_ensures(<Candidates<I> as Predicate<I>>::test, (&Candidates { items }, &item), verdicts.0),
        call_ensures(<Sorted<I> as Predicate<I>>::test, (&Sorted { items }, &item), verdicts.1),
        call_ensures(<Hashed<I> as Predicate<I>>::test, (&hashed, &item), verdicts.2),
        call_ensures(
            <Candidates<I> as Span<I>>::may_hold,
            (&Candidates { items }, &span.0, &span.1),
            may.0,
        ),
        call_ensures(
            <Sorted<I> as Span<I>>::may_hold,
            (&Sorted { items }, &span.0, &span.1),
            may.1,
        ),
        call_ensures(<Hashed<I> as Span<I>>::may_hold, (&hashed, &span.0, &span.1), may.2),
    ensures
        verdicts.0 == verdicts.1,
        verdicts.0 == verdicts.2,
        verdicts.0 == items.deep_view().contains(item.deep_view()),
        may.0 == may.1,
        may.0 == may.2,
        may.0 == exists|i: int|
            0 <= i < items.deep_view().len() && I::within(
                span.0.deep_view(),
                #[trigger] items.deep_view()[i],
            ) && I::within(items.deep_view()[i], span.1.deep_view()),
{
    let all = items.deep_view();
    let v = item.deep_view();
    assert(all.len() == items@.len());
    assert forall|i: int| 0 <= i < all.len() implies #[trigger] all[i] == items@[i].deep_view() by {}
    if listed(items@, v) {
        let i = choose|i: int| 0 <= i < items@.len() && (#[trigger] items@[i]).deep_view() == v;
        assert(all[i] == v);
    }
    if all.contains(v) {
        let i = choose|i: int| 0 <= i < all.len() && all[i] == v;
        assert(items@[i].deep_view() == v);
    }
    let (lo, hi) = (span.0.deep_view(), span.1.deep_view());
    if any_between(items@, lo, hi) {
        let i = choose|i: int|
            0 <= i < items@.len() && I::within(lo, (#[trigger] items@[i]).deep_view()) && I::within(
                items@[i].deep_view(),
                hi,
            );
        assert(I::within(lo, all[i]) && I::within(all[i], hi));
    }
    if exists|i: int| 0 <= i < all.len() && I::within(lo, #[trigger] all[i]) && I::within(all[i], hi) {
        let i = choose|i: int|
            0 <= i < all.len() && I::within(lo, #[trigger] all[i]) && I::within(all[i], hi);
        assert(I::within(lo, items@[i].deep_view()));
    }
}

/// The opposite of a test holds exactly where the test does not.
pub proof fn law_opposites_hold_where_the_test_does_not<I: DeepView, P: Predicate<I>>(
    p: P,
    item: I,
    verdicts: (bool, bool),
)
    requires
        call_ensures(P::test, (&p, &item), verdicts.0),
        call_ensures(<Except<P> as Predicate<I>>::test, (&Except { predicate: p }, &item), verdicts.1),
    ensures
        verdicts.1 == !verdicts.0,
        Predicate::<I>::admits(&Except { predicate: p }, item.deep_view()) == !p.admits(
            item.deep_view(),
        ),
{
}

/// A closure is asked, and its answer is the verdict.
pub proof fn law_closures_are_asked<I: DeepView, F: Fn(&I) -> bool>(
    filter: F,
    item: I,
    answer: bool,
    verdict: bool,
)
    requires
        steady::<I, F>(filter),
        call_ensures(filter, (&item,), answer),
        call_ensures(<Closure<F> as Predicate<I>>::test, (&Closure { filter }, &item), verdict),
    ensures
        verdict == answer,
{
}

/// A range tests an item by holding it, and may match in a span unless it is told apart from it.
pub proof fn law_ranges_test_by_holding<I: Ordered>(
    range: Bounds<I>,
    item: I,
    span: (I, I),
    verdicts: (bool, bool),
    spans: (bool, bool),
)
    requires
        call_ensures(<Bounds<I> as Predicate<I>>::test, (&range, &item), verdicts.0),
        call_ensures(Bounds::<I>::contains, (&range, &item), verdicts.1),
        call_ensures(<Bounds<I> as Span<I>>::may_hold, (&range, &span.0, &span.1), spans.0),
        call_ensures(Buffer::disjoint::<I>, (&span.0, &span.1, &range), spans.1),
    ensures
        verdicts.0 == verdicts.1,
        spans.0 == !spans.1,
{
}

/// Presence is tested by whether an optional item is there.
pub proof fn law_presence_is_tested<I: DeepView>(given: Option<I>, verdicts: (bool, bool))
    requires
        call_ensures(<Present as Predicate<Option<I>>>::test, (&Present, &given), verdicts.0),
        call_ensures(<Missing as Predicate<Option<I>>>::test, (&Missing, &given), verdicts.1),
    ensures
        verdicts.0 == (given is Some),
        verdicts.1 == (given is None),
{
}

} // verus!
