//! Testing items against predicates.

use crate::float::{Float32, Float64};
use crate::nonzero::{Integer, NonZero};
use vstd::prelude::*;

verus! {

/// A test of items that depends on nothing but their value.
pub trait Predicate<I: DeepView>: Sized {
    /// Whether the test can be made.
    spec fn ready(&self) -> bool;

    /// Whether an item satisfies the predicate.
    spec fn admits(&self, item: I::V) -> bool;

    /// Tests one item.
    fn test(&self, item: &I) -> (verdict: bool)
        requires
            self.ready(),
        ensures
            verdict == self.admits(item.deep_view()),
    ;
}

/// An item that a filter can test by an operand of type `I`.
pub trait Evaluate<I: DeepView = Self>: DeepView + Sized {
    /// The operand that an item carries, if any.
    spec fn operand(item: Self::V) -> Option<I::V>;

    /// Tests the operand with `filter`. An item without an operand satisfies no filter.
    fn evaluate<F: Fn(&I) -> bool>(&self, filter: F) -> (verdict: bool)
        requires
            forall|op: &I|
                Self::operand(self.deep_view()) == Some(op.deep_view()) ==> #[trigger] call_requires(
                    filter,
                    (op,),
                ),
        ensures
            Self::operand(self.deep_view()) is None ==> !verdict,
            Self::operand(self.deep_view()) is Some ==> exists|op: &I|
                Self::operand(self.deep_view()) == Some(op.deep_view()) && #[trigger] call_ensures(
                    filter,
                    (op,),
                    verdict,
                ),
    ;
}

/// Whether the operand of `item` satisfies the predicate.
pub open spec fn satisfies<T: Evaluate<I>, I: DeepView, P: Predicate<I>>(
    item: T::V,
    predicate: P,
) -> bool {
    match T::operand(item) {
        Some(op) => predicate.admits(op),
        None => false,
    }
}

/// Tests the operand of `item`.
pub fn assess<T: Evaluate<I>, I: DeepView, P: Predicate<I>>(item: &T, predicate: &P) -> (verdict:
    bool)
    requires
        predicate.ready(),
    ensures
        verdict == satisfies::<T, I, P>(item.deep_view(), *predicate),
{
    let filter = |op: &I| -> (verdict: bool)
        requires
            predicate.ready(),
        ensures
            verdict == predicate.admits(op.deep_view()),
    {
        predicate.test(op)
    };
    item.evaluate(filter)
}

impl Evaluate for bool {
    open spec fn operand(item: Self::V) -> Option<Self::V> {
        Some(item)
    }

    fn evaluate<F: Fn(&Self) -> bool>(&self, filter: F) -> (verdict: bool) {
        filter(self)
    }
}

impl Evaluate for char {
    open spec fn operand(item: Self::V) -> Option<Self::V> {
        Some(item)
    }

    fn evaluate<F: Fn(&Self) -> bool>(&self, filter: F) -> (verdict: bool) {
        filter(self)
    }
}

impl Evaluate for Float32 {
    open spec fn operand(item: Self::V) -> Option<Self::V> {
        Some(item)
    }

    fn evaluate<F: Fn(&Self) -> bool>(&self, filter: F) -> (verdict: bool) {
        filter(self)
    }
}

impl Evaluate for Float64 {
    open spec fn operand(item: Self::V) -> Option<Self::V> {
        Some(item)
    }

    fn evaluate<F: Fn(&Self) -> bool>(&self, filter: F) -> (verdict: bool) {
        filter(self)
    }
}

impl Evaluate for i8 {
    open spec fn operand(item: Self::V) -> Option<Self::V> {
        Some(item)
    }

    fn evaluate<F: Fn(&Self) -> bool>(&self, filter: F) -> (verdict: bool) {
        filter(self)
    }
}

impl Evaluate for i16 {
    open spec fn operand(item: Self::V) -> Option<Self::V> {
        Some(item)
    }

    fn evaluate<F: Fn(&Self) -> bool>(&self, filter: F) -> (verdict: bool) {
        filter(self)
    }
}

impl Evaluate for i32 {
    open spec fn operand(item: Self::V) -> Option<Self::V> {
        Some(item)
    }

    fn evaluate<F: Fn(&Self) -> bool>(&self, filter: F) -> (verdict: bool) {
        filter(self)
    }
}

impl Evaluate for i64 {
    open spec fn operand(item: Self::V) -> Option<Self::V> {
        Some(item)
    }

    fn evaluate<F: Fn(&Self) -> bool>(&self, filter: F) -> (verdict: bool) {
        filter(self)
    }
}

impl Evaluate for i128 {
    open spec fn operand(item: Self::V) -> Option<Self::V> {
        Some(item)
    }

    fn evaluate<F: Fn(&Self) -> bool>(&self, filter: F) -> (verdict: bool) {
        filter(self)
    }
}

impl Evaluate for u8 {
    open spec fn operand(item: Self::V) -> Option<Self::V> {
        Some(item)
    }

    fn evaluate<F: Fn(&Self) -> bool>(&self, filter: F) -> (verdict: bool) {
        filter(self)
    }
}

impl Evaluate for u16 {
    open spec fn operand(item: Self::V) -> Option<Self::V> {
        Some(item)
    }

    fn evaluate<F: Fn(&Self) -> bool>(&self, filter: F) -> (verdict: bool) {
        filter(self)
    }
}

impl Evaluate for u32 {
    open spec fn operand(item: Self::V) -> Option<Self::V> {
        Some(item)
    }

    fn evaluate<F: Fn(&Self) -> bool>(&self, filter: F) -> (verdict: bool) {
        filter(self)
    }
}

impl Evaluate for u64 {
    open spec fn operand(item: Self::V) -> Option<Self::V> {
        Some(item)
    }

    fn evaluate<F: Fn(&Self) -> bool>(&self, filter: F) -> (verdict: bool) {
        filter(self)
    }
}

impl Evaluate for u128 {
    open spec fn operand(item: Self::V) -> Option<Self::V> {
        Some(item)
    }

    fn evaluate<F: Fn(&Self) -> bool>(&self, filter: F) -> (verdict: bool) {
        filter(self)
    }
}

impl Evaluate for String {
    open spec fn operand(item: Self::V) -> Option<Self::V> {
        Some(item)
    }

    fn evaluate<F: Fn(&Self) -> bool>(&self, filter: F) -> (verdict: bool) {
        filter(self)
    }
}

impl<T: Integer> Evaluate for NonZero<T> {
    open spec fn operand(item: Self::V) -> Option<Self::V> {
        Some(item)
    }

    fn evaluate<F: Fn(&Self) -> bool>(&self, filter: F) -> (verdict: bool) {
        filter(self)
    }
}

impl<'d> Evaluate for &'d str {
    open spec fn operand(item: Self::V) -> Option<Self::V> {
        Some(item)
    }

    fn evaluate<F: Fn(&Self) -> bool>(&self, filter: F) -> (verdict: bool) {
        filter(self)
    }
}

impl<I: DeepView> Evaluate<Option<I>> for Option<I> {
    /// The whole optional item, so that a structural test sees an absent one too.
    open spec fn operand(item: Option<I::V>) -> Option<Option<I::V>> {
        Some(item)
    }

    fn evaluate<F: Fn(&Option<I>) -> bool>(&self, filter: F) -> (verdict: bool) {
        filter(self)
    }
}

impl<I: Evaluate> Evaluate<I> for Option<I> {
    /// What a present item carries. An absent item has nothing to test.
    open spec fn operand(item: Option<I::V>) -> Option<I::V> {
        match item {
            Some(inner) => I::operand(inner),
            None => None,
        }
    }

    fn evaluate<F: Fn(&I) -> bool>(&self, filter: F) -> (verdict: bool) {
        match self {
            Some(inner) => inner.evaluate(filter),
            None => false,
        }
    }
}

/// An optional item.
pub trait IsOption: DeepView + Sized {
    /// What a present item carries.
    type Item: DeepView;

    /// What the item carries, if it is present.
    spec fn carried(item: Self::V) -> Option<<Self::Item as DeepView>::V>;

    /// Whether the item is present.
    fn is_some(&self) -> (present: bool)
        ensures
            present == (Self::carried(self.deep_view()) is Some),
    ;

    /// Whether the item is absent.
    fn is_none(&self) -> (absent: bool)
        ensures
            absent == (Self::carried(self.deep_view()) is None),
    ;

    /// What the item carries, if it is present.
    fn item(self) -> (carried: Option<Self::Item>)
        ensures
            match carried {
                Some(item) => Self::carried(self.deep_view()) == Some(item.deep_view()),
                None => Self::carried(self.deep_view()) is None,
            },
    ;
}

impl<I: DeepView> IsOption for Option<I> {
    type Item = I;

    open spec fn carried(item: Option<I::V>) -> Option<I::V> {
        item
    }

    fn is_some(&self) -> (present: bool) {
        match self {
            Some(_) => true,
            None => false,
        }
    }

    fn is_none(&self) -> (absent: bool) {
        match self {
            Some(_) => false,
            None => true,
        }
    }

    fn item(self) -> (carried: Option<I>) {
        self
    }
}

// ---------------------------------------------------------------- laws

/// A plain item is tested as it is.
pub proof fn law_plain_items_are_tested_as_they_are()
    ensures
        forall|item: u8| #[trigger] <u8 as Evaluate>::operand(item) == Some(item),
        forall|item: u16| #[trigger] <u16 as Evaluate>::operand(item) == Some(item),
        forall|item: u32| #[trigger] <u32 as Evaluate>::operand(item) == Some(item),
        forall|item: u64| #[trigger] <u64 as Evaluate>::operand(item) == Some(item),
        forall|item: u128| #[trigger] <u128 as Evaluate>::operand(item) == Some(item),
        forall|item: i8| #[trigger] <i8 as Evaluate>::operand(item) == Some(item),
        forall|item: i16| #[trigger] <i16 as Evaluate>::operand(item) == Some(item),
        forall|item: i32| #[trigger] <i32 as Evaluate>::operand(item) == Some(item),
        forall|item: i64| #[trigger] <i64 as Evaluate>::operand(item) == Some(item),
        forall|item: i128| #[trigger] <i128 as Evaluate>::operand(item) == Some(item),
        forall|item: bool| #[trigger] <bool as Evaluate>::operand(item) == Some(item),
        forall|item: char| #[trigger] <char as Evaluate>::operand(item) == Some(item),
        forall|item: Float32| #[trigger] <Float32 as Evaluate>::operand(item) == Some(item),
        forall|item: Float64| #[trigger] <Float64 as Evaluate>::operand(item) == Some(item),
        forall|item: Seq<char>| #[trigger] <String as Evaluate>::operand(item) == Some(item),
        forall|item: Seq<char>| #[trigger] <&str as Evaluate>::operand(item) == Some(item),
{
}

/// A non-zero integer is tested as it is.
pub proof fn law_nonzero_integers_are_tested_as_they_are<T: Integer>(item: NonZero<T>)
    ensures
        <NonZero<T> as Evaluate>::operand(item) == Some(item),
{
}

/// An optional item is tested as a whole by a test of optional items. By a test of what it carries, a
/// present item is tested as what it carries is, and an absent one fails whatever the test is.
pub proof fn law_optional_items_are_tested_by_what_they_carry<
    I: Evaluate,
    P: Predicate<I>,
    Q: Predicate<Option<I>>,
>(inner: I, p: P, q: Q, verdicts: (bool, bool, bool, bool, bool))
    requires
        call_ensures(assess::<Option<I>, I, P>, (&Some(inner), &p), verdicts.0),
        call_ensures(assess::<Option<I>, I, P>, (&None::<I>, &p), verdicts.1),
        call_ensures(assess::<I, I, P>, (&inner, &p), verdicts.2),
        call_ensures(assess::<Option<I>, Option<I>, Q>, (&Some(inner), &q), verdicts.3),
        call_ensures(assess::<Option<I>, Option<I>, Q>, (&None::<I>, &q), verdicts.4),
    ensures
        verdicts.0 == verdicts.2,
        verdicts.1 == false,
        verdicts.3 == q.admits(Some(inner.deep_view())),
        verdicts.4 == q.admits(None),
{
}

/// The operand of an item decides: a test of the item is a test of its operand.
pub proof fn law_items_are_tested_by_their_operand<T: Evaluate<I>, I: DeepView, P: Predicate<I>>(
    item: T,
    operand: I,
    p: P,
    verdicts: (bool, bool),
)
    requires
        T::operand(item.deep_view()) == Some(operand.deep_view()),
        call_ensures(assess::<T, I, P>, (&item, &p), verdicts.0),
        call_ensures(P::test, (&p, &operand), verdicts.1),
    ensures
        verdicts.0 == verdicts.1,
{
}

/// An optional item carries what it was made of, and is present if it carries anything.
pub proof fn law_optional_items_carry_what_they_hold<I: DeepView>(
    given: Option<I>,
    carried: Option<I>,
    present: bool,
    absent: bool,
)
    requires
        call_ensures(<Option<I> as IsOption>::item, (given,), carried),
        call_ensures(<Option<I> as IsOption>::is_some, (&given,), present),
        call_ensures(<Option<I> as IsOption>::is_none, (&given,), absent),
    ensures
        present == (given is Some),
        absent == (given is None),
        carried is Some <==> given is Some,
        given matches Some(item) ==> carried matches Some(inner) && inner.deep_view()
            == item.deep_view(),
{
}

} // verus!
