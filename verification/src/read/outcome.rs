//! What a query makes of each slot of a column.

use crate::io::error::Error;
use crate::read::evaluate::{assess, satisfies, Evaluate, Predicate};
use vstd::prelude::*;

verus! {

/// What becomes of one slot of a column.
#[derive(Debug)]
pub enum Outcome<I> {
    /// The item is part of the result.
    Include(I),
    /// The item was decoded, and a filter rejected it.
    Exclude(I),
    /// The slot holds no item.
    Absent,
    /// The item could not be decoded.
    Error(Error),
}

impl<I: DeepView> DeepView for Outcome<I> {
    type V = Outcome<I::V>;

    open spec fn deep_view(&self) -> Outcome<I::V> {
        match *self {
            Outcome::Include(item) => Outcome::Include(item.deep_view()),
            Outcome::Exclude(item) => Outcome::Exclude(item.deep_view()),
            Outcome::Absent => Outcome::Absent,
            Outcome::Error(e) => Outcome::Error(e),
        }
    }
}

impl<I> Outcome<I> {
    /// A decode result at the boundary of a column: every item is included until a filter says
    /// otherwise.
    pub open spec fn lifted(result: Result<I, Error>) -> Self {
        match result {
            Ok(item) => Outcome::Include(item),
            Err(e) => Outcome::Error(e),
        }
    }

    /// The outcome after a test that an included item passes if and only if `verdict` holds.
    pub open spec fn judged(self, verdict: spec_fn(I) -> bool) -> Self {
        match self {
            Outcome::Include(item) => if verdict(item) {
                Outcome::Include(item)
            } else {
                Outcome::Exclude(item)
            },
            _ => self,
        }
    }

    /// The item, where it is part of the result, or the error.
    pub open spec fn kept(self) -> Option<Result<I, Error>> {
        match self {
            Outcome::Include(item) => Some(Ok(item)),
            Outcome::Error(e) => Some(Err(e)),
            _ => None,
        }
    }

    /// The item, where a filter rejected it, or the error.
    pub open spec fn rejected(self) -> Option<Result<I, Error>> {
        match self {
            Outcome::Exclude(item) => Some(Ok(item)),
            Outcome::Error(e) => Some(Err(e)),
            _ => None,
        }
    }
}

impl<I> From<Result<I, Error>> for Outcome<I> {
    fn from(result: Result<I, Error>) -> (outcome: Self) {
        match result {
            Ok(item) => Outcome::Include(item),
            Err(e) => Outcome::Error(e),
        }
    }
}

impl<I> vstd::std_specs::convert::FromSpecImpl<Result<I, Error>> for Outcome<I> {
    open spec fn obeys_from_spec() -> bool {
        true
    }

    open spec fn from_spec(result: Result<I, Error>) -> Self {
        Outcome::lifted(result)
    }
}

impl<I: DeepView> Outcome<I> {
    /// Tests an included item with `filter`. Every other outcome passes through, so that an item
    /// which a preceding filter rejected is never included again.
    pub fn keep<Op: DeepView, F: Fn(&Op) -> bool>(self, filter: F) -> (outcome: Self) where
        I: Evaluate<Op>,

        requires
            self matches Outcome::Include(item) ==> forall|op: &Op|
                I::operand(item.deep_view()) == Some(op.deep_view()) ==> #[trigger] call_requires(
                    filter,
                    (op,),
                ),
        ensures
            match self {
                Outcome::Include(item) => {
                    &&& outcome == Outcome::Include(item) || outcome == Outcome::Exclude(item)
                    &&& I::operand(item.deep_view()) is None ==> outcome is Exclude
                    &&& I::operand(item.deep_view()) is Some ==> exists|op: &Op|
                        I::operand(item.deep_view()) == Some(op.deep_view())
                            && #[trigger] call_ensures(filter, (op,), outcome is Include)
                },
                _ => outcome == self,
            },
    {
        match self {
            Outcome::Include(item) => {
                let verdict: bool = item.evaluate(filter);
                let outcome = if verdict {
                    Outcome::Include(item)
                } else {
                    Outcome::Exclude(item)
                };
                assert((outcome is Include) == verdict);
                outcome
            },
            other => other,
        }
    }

    /// Tests an included item with a predicate.
    pub fn judge<Op: DeepView, P: Predicate<Op>>(self, predicate: &P) -> (outcome: Self) where
        I: Evaluate<Op>,

        requires
            predicate.ready(),
        ensures
            outcome.deep_view() == self.deep_view().judged(
                |item: I::V| satisfies::<I, Op, P>(item, *predicate),
            ),
    {
        match self {
            Outcome::Include(item) => {
                if assess(&item, predicate) {
                    Outcome::Include(item)
                } else {
                    Outcome::Exclude(item)
                }
            },
            other => other,
        }
    }
}

// ---------------------------------------------------------------- laws

/// What was decoded is included, and what could not be is an error.
pub proof fn law_decoded_items_are_included<I>(result: Result<I, Error>, outcome: Outcome<I>)
    requires
        call_ensures(<Outcome<I> as From<Result<I, Error>>>::from, (result,), outcome),
    ensures
        result matches Ok(item) ==> outcome == Outcome::Include(item),
        result matches Err(e) ==> outcome == Outcome::<I>::Error(e),
        Outcome::lifted(result) == outcome,
{
}

/// A test decides between including and excluding an included item, by its verdict, and changes no other
/// outcome: an item that was rejected stays rejected.
pub proof fn law_a_test_decides_included_items_alone<
    I: DeepView + Evaluate<Op>,
    Op: DeepView,
    P: Predicate<Op>,
>(before: Outcome<I>, predicate: P, after: Outcome<I>)
    requires
        call_ensures(Outcome::<I>::judge::<Op, P>, (before, &predicate), after),
    ensures
        before matches Outcome::Include(item) ==> {
            &&& after is Include <==> (I::operand(item.deep_view()) matches Some(op)
                && predicate.admits(op))
            &&& after.deep_view() == Outcome::Include(item.deep_view()) || after.deep_view()
                == Outcome::Exclude(item.deep_view())
        },
        !(before is Include) ==> after.deep_view() == before.deep_view(),
{
}

/// A closure decides between including and excluding an included item in the same way.
pub proof fn law_a_closure_decides_included_items_alone<
    I: DeepView + Evaluate<Op>,
    Op: DeepView,
    F: Fn(&Op) -> bool,
>(before: Outcome<I>, filter: F, after: Outcome<I>)
    requires
        call_ensures(Outcome::<I>::keep::<Op, F>, (before, filter), after),
        forall|a: &Op, b: &Op, x: bool, y: bool|
            a.deep_view() == b.deep_view() && #[trigger] call_ensures(filter, (a,), x)
                && #[trigger] call_ensures(filter, (b,), y) ==> x == y,
    ensures
        before matches Outcome::Include(item) ==> {
            &&& I::operand(item.deep_view()) is None ==> after == Outcome::Exclude(item)
            &&& forall|op: &Op, verdict: bool|
                I::operand(item.deep_view()) == Some(op.deep_view()) && #[trigger] call_ensures(
                    filter,
                    (op,),
                    verdict,
                ) ==> after == (if verdict {
                    Outcome::Include(item)
                } else {
                    Outcome::Exclude(item)
                })
        },
        !(before is Include) ==> after == before,
{
}

/// The view of an outcome is of its variant, with the view of what it holds.
pub proof fn law_outcomes_are_seen_as_they_are<I: DeepView>(item: I, error: Error)
    ensures
        Outcome::Include(item).deep_view() == Outcome::Include(item.deep_view()),
        Outcome::Exclude(item).deep_view() == Outcome::Exclude(item.deep_view()),
        Outcome::<I>::Absent.deep_view() == Outcome::<I::V>::Absent,
        Outcome::<I>::Error(error).deep_view() == Outcome::<I::V>::Error(error),
{
}

} // verus!
