//! Lazy streams of outcomes.

use crate::io::error::{viewed, Error};
use crate::read::decoder::pulled;
use crate::read::evaluate::{satisfies, Evaluate, IsOption, Predicate};
use crate::read::outcome::Outcome;
use core::marker::PhantomData;
use vstd::prelude::*;

verus! {

/// A finite sequence of outcomes that is computed one by one.
pub trait Stream: Sized {
    /// The items of the stream.
    type Item: DeepView;

    /// The outcomes still to come.
    spec fn rest(&self) -> Seq<Outcome<<Self::Item as DeepView>::V>>;

    /// Pulls one outcome.
    fn next(&mut self) -> (outcome: Option<Outcome<Self::Item>>)
        ensures
            match outcome {
                None => old(self).rest().len() == 0 && final(self).rest() == old(self).rest(),
                Some(o) => old(self).rest().len() > 0 && o.deep_view() == old(self).rest()[0]
                    && final(self).rest() == old(self).rest().skip(1),
            },
    ;
}

/// Pulls every outcome that is left.
#[verifier::loop_isolation(false)]
pub fn drain<S: Stream>(stream: S) -> (outcomes: Vec<Outcome<S::Item>>)
    ensures
        outcomes.deep_view() == stream.rest(),
{
    let ghost all = stream.rest();
    let mut stream: S = stream;
    let mut outcomes: Vec<Outcome<S::Item>> = Vec::new();
    assert(outcomes.deep_view() + stream.rest() =~= all);
    loop
        invariant
            outcomes.deep_view() + stream.rest() == all,
        decreases stream.rest().len(),
    {
        let ghost before = outcomes.deep_view();
        let ghost left = stream.rest();
        match stream.next() {
            None => {
                assert(outcomes.deep_view() =~= all);
                return outcomes;
            },
            Some(outcome) => {
                outcomes.push(outcome);
                assert(outcomes.deep_view() =~= before.push(left[0]));
                assert(outcomes.deep_view() + stream.rest() =~= before + left);
            },
        }
    }
}

// ---------------------------------------------------------------- given outcomes

/// A stream of given outcomes.
pub struct Listed<I> {
    /// The outcomes still to come.
    pub outcomes: Vec<Outcome<I>>,
}

impl<I: DeepView> Stream for Listed<I> {
    type Item = I;

    open spec fn rest(&self) -> Seq<Outcome<I::V>> {
        self.outcomes.deep_view()
    }

    fn next(&mut self) -> (outcome: Option<Outcome<I>>) {
        let ghost before = self.outcomes.deep_view();
        if self.outcomes.len() == 0 {
            None
        } else {
            let outcome = self.outcomes.remove(0);
            assert(self.outcomes.deep_view() =~= before.skip(1));
            Some(outcome)
        }
    }
}

// ---------------------------------------------------------------- the end of a query

/// What is left of a stream when everything but the included items and the errors is dropped.
pub open spec fn kept_of<V>(outcomes: Seq<Outcome<V>>) -> Seq<Result<V, Error>>
    decreases outcomes.len(),
{
    if outcomes.len() == 0 {
        Seq::empty()
    } else {
        let tail = kept_of(outcomes.skip(1));
        match outcomes[0].kept() {
            Some(item) => seq![item] + tail,
            None => tail,
        }
    }
}

/// What is left of a stream when everything but the rejected items and the errors is dropped.
pub open spec fn rejected_of<V>(outcomes: Seq<Outcome<V>>) -> Seq<Result<V, Error>>
    decreases outcomes.len(),
{
    if outcomes.len() == 0 {
        Seq::empty()
    } else {
        let tail = rejected_of(outcomes.skip(1));
        match outcomes[0].rejected() {
            Some(item) => seq![item] + tail,
            None => tail,
        }
    }
}

/// The items with each taken by its deep view.
pub open spec fn viewed_all<I: DeepView>(items: Seq<Result<I, Error>>) -> Seq<Result<I::V, Error>> {
    items.map_values(|item: Result<I, Error>| viewed(item))
}

/// A stream of the included items and the errors.
pub struct Included<S> {
    stream: S,
}

/// Drops everything but the included items and the errors.
pub fn included<S: Stream>(stream: S) -> (items: Included<S>)
    ensures
        items.rest() == kept_of(stream.rest()),
{
    Included { stream }
}

impl<S: Stream> Included<S> {
    /// The items still to come.
    pub closed spec fn rest(self) -> Seq<Result<<S::Item as DeepView>::V, Error>> {
        kept_of(self.stream.rest())
    }

    /// Pulls one item, re-polling the stream until it has one.
    #[verifier::loop_isolation(false)]
    pub fn next(&mut self) -> (item: Option<Result<S::Item, Error>>)
        ensures
            match pulled(item) {
                None => old(self).rest().len() == 0 && final(self).rest() == old(self).rest(),
                Some(i) => old(self).rest().len() > 0 && i == old(self).rest()[0]
                    && final(self).rest() == old(self).rest().skip(1),
            },
    {
        let ghost all = self.rest();
        loop
            invariant
                self.rest() == all,
            decreases self.stream.rest().len(),
        {
            match self.stream.next() {
                None => {
                    return None;
                },
                Some(Outcome::Include(item)) => {
                    assert(self.rest() =~= all.skip(1));
                    return Some(Ok(item));
                },
                Some(Outcome::Error(e)) => {
                    assert(self.rest() =~= all.skip(1));
                    return Some(Err(e));
                },
                Some(Outcome::Exclude(_)) => {},
                Some(Outcome::Absent) => {},
            }
        }
    }

    /// Pulls every item that is left.
    #[verifier::loop_isolation(false)]
    pub fn collect(self) -> (items: Vec<Result<S::Item, Error>>)
        ensures
            viewed_all(items@) == self.rest(),
    {
        let ghost all = self.rest();
        let mut stream: Self = self;
        let mut items: Vec<Result<S::Item, Error>> = Vec::new();
        assert(viewed_all(items@) + stream.rest() =~= all);
        loop
            invariant
                viewed_all(items@) + stream.rest() == all,
            decreases stream.rest().len(),
        {
            let ghost before = items@;
            let ghost left = stream.rest();
            match stream.next() {
                None => {
                    assert(viewed_all(items@) =~= all);
                    return items;
                },
                Some(item) => {
                    items.push(item);
                    assert(viewed_all(items@) =~= viewed_all(before).push(left[0]));
                    assert(viewed_all(items@) + stream.rest() =~= viewed_all(before) + left);
                },
            }
        }
    }
}

/// A source of items whose outcome is settled.
pub trait Yields: Sized {
    /// The items.
    type Item;

    /// What tells items apart.
    type Value;

    /// What tells an item apart.
    spec fn value(item: Self::Item) -> Self::Value;

    /// The items still to come.
    spec fn left(&self) -> Seq<Result<Self::Value, Error>>;

    /// Pulls one item.
    fn pull(&mut self) -> (item: Option<Result<Self::Item, Error>>)
        ensures
            match item {
                None => old(self).left().len() == 0,
                Some(i) => {
                    &&& old(self).left().len() > 0
                    &&& final(self).left() == old(self).left().skip(1)
                    &&& old(self).left()[0] == (match i {
                        Ok(item) => Ok(Self::value(item)),
                        Err(e) => Err(e),
                    })
                },
            },
    ;
}

impl<S: Stream> Yields for Included<S> {
    type Item = S::Item;

    type Value = <S::Item as DeepView>::V;

    open spec fn value(item: S::Item) -> Self::Value {
        item.deep_view()
    }

    open spec fn left(&self) -> Seq<Result<Self::Value, Error>> {
        self.rest()
    }

    fn pull(&mut self) -> (item: Option<Result<S::Item, Error>>) {
        self.next()
    }
}

/// Collects the rejected items and the errors.
#[verifier::loop_isolation(false)]
pub fn excluded<S: Stream>(stream: S) -> (items: Vec<Result<S::Item, Error>>)
    ensures
        viewed_all(items@) == rejected_of(stream.rest()),
{
    let ghost all = rejected_of(stream.rest());
    let mut stream: S = stream;
    let mut items: Vec<Result<S::Item, Error>> = Vec::new();
    assert(viewed_all(items@) + rejected_of(stream.rest()) =~= all);
    loop
        invariant
            viewed_all(items@) + rejected_of(stream.rest()) == all,
        decreases stream.rest().len(),
    {
        let ghost before = items@;
        let ghost left = stream.rest();
        let outcome = match stream.next() {
            None => {
                assert(viewed_all(items@) =~= all);
                return items;
            },
            Some(outcome) => outcome,
        };
        match outcome {
            Outcome::Exclude(item) => {
                items.push(Ok(item));
                assert(viewed_all(items@) =~= viewed_all(before).push(Ok(item.deep_view())));
                assert(viewed_all(items@) + rejected_of(stream.rest()) =~= viewed_all(before)
                    + rejected_of(left));
            },
            Outcome::Error(e) => {
                items.push(Err(e));
                assert(viewed_all(items@) =~= viewed_all(before).push(Err(e)));
                assert(viewed_all(items@) + rejected_of(stream.rest()) =~= viewed_all(before)
                    + rejected_of(left));
            },
            Outcome::Include(_) => {},
            Outcome::Absent => {},
        }
    }
}

// ---------------------------------------------------------------- adapters

/// The outcomes after each included item was tested.
pub open spec fn judged_all<I: Evaluate<Op>, Op: DeepView, P: Predicate<Op>>(
    outcomes: Seq<Outcome<I::V>>,
    predicate: P,
) -> Seq<Outcome<I::V>> {
    outcomes.map_values(
        |outcome: Outcome<I::V>|
            outcome.judged(|item: I::V| satisfies::<I, Op, P>(item, predicate)),
    )
}

/// A predicate that is ready.
pub struct Ready<P: Predicate<Op>, Op: DeepView> {
    predicate: P,
    operand: PhantomData<Op>,
}

impl<P: Predicate<Op>, Op: DeepView> Ready<P, Op> {
    #[verifier::type_invariant]
    spec fn valid(self) -> bool {
        self.predicate.ready()
    }

    /// The predicate.
    pub closed spec fn held(self) -> P {
        self.predicate
    }

    /// Holds `predicate`.
    pub fn new(predicate: P) -> (ready: Self)
        requires
            predicate.ready(),
        ensures
            ready.held() == predicate,
    {
        Ready { predicate, operand: PhantomData }
    }

    /// Borrows the predicate.
    pub fn get(&self) -> (predicate: &P)
        ensures
            *predicate == self.held(),
            predicate.ready(),
    {
        proof {
            use_type_invariant(self);
        }
        &self.predicate
    }
}

/// A stream whose included items are tested.
pub struct Judged<S, P: Predicate<Op>, Op: DeepView> {
    /// The stream.
    pub stream: S,
    /// The test.
    pub predicate: Ready<P, Op>,
}

impl<S: Stream, P: Predicate<Op>, Op: DeepView> Stream for Judged<S, P, Op> where
    S::Item: Evaluate<Op>,
 {
    type Item = S::Item;

    open spec fn rest(&self) -> Seq<Outcome<<S::Item as DeepView>::V>> {
        judged_all::<S::Item, Op, P>(self.stream.rest(), self.predicate.held())
    }

    fn next(&mut self) -> (outcome: Option<Outcome<S::Item>>) {
        let ghost before = self.rest();
        match self.stream.next() {
            None => None,
            Some(outcome) => {
                assert(self.rest() =~= before.skip(1));
                Some(outcome.judge(self.predicate.get()))
            },
        }
    }
}

/// What becomes of an outcome when its item is narrowed to what it carries.
pub open spec fn narrowed<T: IsOption>(outcome: Outcome<T::V>) -> Outcome<
    <T::Item as DeepView>::V,
> {
    match outcome {
        Outcome::Include(item) => match T::carried(item) {
            Some(inner) => Outcome::Include(inner),
            None => Outcome::Absent,
        },
        Outcome::Exclude(item) => match T::carried(item) {
            Some(inner) => Outcome::Exclude(inner),
            None => Outcome::Absent,
        },
        Outcome::Absent => Outcome::Absent,
        Outcome::Error(e) => Outcome::Error(e),
    }
}

/// A stream of optional items narrowed to what they carry.
pub struct Narrowed<S> {
    /// The stream of optional items.
    pub stream: S,
}

impl<S: Stream> Stream for Narrowed<S> where S::Item: IsOption {
    type Item = <S::Item as IsOption>::Item;

    open spec fn rest(&self) -> Seq<Outcome<<<S::Item as IsOption>::Item as DeepView>::V>> {
        self.stream.rest().map_values(
            |outcome: Outcome<<S::Item as DeepView>::V>| narrowed::<S::Item>(outcome),
        )
    }

    fn next(&mut self) -> (outcome: Option<Outcome<Self::Item>>) {
        let ghost before = self.rest();
        let outcome = match self.stream.next() {
            None => {
                return None;
            },
            Some(outcome) => outcome,
        };
        assert(self.rest() =~= before.skip(1));
        Some(
            match outcome {
                Outcome::Include(item) => match item.item() {
                    Some(inner) => Outcome::Include(inner),
                    None => Outcome::Absent,
                },
                Outcome::Exclude(item) => match item.item() {
                    Some(inner) => Outcome::Exclude(inner),
                    None => Outcome::Absent,
                },
                Outcome::Absent => Outcome::Absent,
                Outcome::Error(e) => Outcome::Error(e),
            },
        )
    }
}

/// `seq` without its first `n` elements.
pub open spec fn past<A>(seq: Seq<A>, n: nat) -> Seq<A> {
    if n <= seq.len() {
        seq.skip(n as int)
    } else {
        Seq::empty()
    }
}

/// The first `n` elements of `seq`.
pub open spec fn upto<A>(seq: Seq<A>, n: nat) -> Seq<A> {
    if n <= seq.len() {
        seq.take(n as int)
    } else {
        seq
    }
}

/// A stream without its first outcomes.
pub struct Skipped<S> {
    /// The whole stream.
    pub stream: S,
    /// How many outcomes are still to be dropped.
    pub left: usize,
}

impl<S: Stream> Stream for Skipped<S> {
    type Item = S::Item;

    open spec fn rest(&self) -> Seq<Outcome<<S::Item as DeepView>::V>> {
        past(self.stream.rest(), self.left as nat)
    }

    #[verifier::loop_isolation(false)]
    fn next(&mut self) -> (outcome: Option<Outcome<S::Item>>) {
        let ghost all = self.rest();
        while self.left > 0
            invariant
                self.rest() == all,
            decreases self.left,
        {
            match self.stream.next() {
                None => {
                    return None;
                },
                Some(_) => {
                    self.left = self.left - 1;
                    assert(self.rest() =~= all);
                },
            }
        }
        assert(self.stream.rest() =~= all);
        let outcome = self.stream.next();
        assert(self.rest() =~= self.stream.rest());
        outcome
    }
}

/// A stream that ends after its first outcomes.
pub struct Limited<S> {
    /// The whole stream.
    pub stream: S,
    /// How many outcomes may still be pulled.
    pub left: usize,
}

impl<S: Stream> Stream for Limited<S> {
    type Item = S::Item;

    open spec fn rest(&self) -> Seq<Outcome<<S::Item as DeepView>::V>> {
        upto(self.stream.rest(), self.left as nat)
    }

    fn next(&mut self) -> (outcome: Option<Outcome<S::Item>>) {
        let ghost all = self.rest();
        if self.left == 0 {
            return None;
        }
        match self.stream.next() {
            None => None,
            Some(outcome) => {
                self.left = self.left - 1;
                assert(self.rest() =~= all.skip(1));
                Some(outcome)
            },
        }
    }
}

// ---------------------------------------------------------------- laws

/// How many outcomes are errors.
pub open spec fn errors_in<V>(outcomes: Seq<Outcome<V>>) -> nat
    decreases outcomes.len(),
{
    if outcomes.len() == 0 {
        0
    } else {
        errors_in(outcomes.skip(1)) + if outcomes[0] is Error {
            1nat
        } else {
            0nat
        }
    }
}

/// How many outcomes are absent.
pub open spec fn absent_in<V>(outcomes: Seq<Outcome<V>>) -> nat
    decreases outcomes.len(),
{
    if outcomes.len() == 0 {
        0
    } else {
        absent_in(outcomes.skip(1)) + if outcomes[0] is Absent {
            1nat
        } else {
            0nat
        }
    }
}

/// The included and the rejected items partition a stream: each outcome that is present and no error
/// is in one of them, and each error is in both.
pub proof fn law_partition<V>(outcomes: Seq<Outcome<V>>)
    ensures
        kept_of(outcomes).len() + rejected_of(outcomes).len() + absent_in(outcomes)
            == outcomes.len() + errors_in(outcomes),
    decreases outcomes.len(),
{
    if outcomes.len() > 0 {
        law_partition(outcomes.skip(1));
    }
}

/// Filters are conjunctive: an item passes two of them if and only if it satisfies both predicates, so
/// that their order does not matter to what is kept.
pub proof fn law_filters_conjoin<
    I: Evaluate<A> + Evaluate<B>,
    A: DeepView,
    B: DeepView,
    P: Predicate<A>,
    Q: Predicate<B>,
>(outcomes: Seq<Outcome<I::V>>, p: P, q: Q)
    ensures
        forall|i: int|
            0 <= i < outcomes.len() ==> (#[trigger] judged_all::<I, B, Q>(
                judged_all::<I, A, P>(outcomes, p),
                q,
            )[i] is Include) == (outcomes[i] is Include && satisfies::<I, A, P>(
                outcomes[i]->Include_0,
                p,
            ) && satisfies::<I, B, Q>(outcomes[i]->Include_0, q)),
        kept_of(judged_all::<I, B, Q>(judged_all::<I, A, P>(outcomes, p), q)) == kept_of(
            judged_all::<I, A, P>(judged_all::<I, B, Q>(outcomes, q), p),
        ),
    decreases outcomes.len(),
{
    if outcomes.len() > 0 {
        let rest = outcomes.skip(1);
        law_filters_conjoin::<I, A, B, P, Q>(rest, p, q);
        assert(judged_all::<I, B, Q>(judged_all::<I, A, P>(outcomes, p), q).skip(1) =~= judged_all::<
            I,
            B,
            Q,
        >(judged_all::<I, A, P>(rest, p), q));
        assert(judged_all::<I, A, P>(judged_all::<I, B, Q>(outcomes, q), p).skip(1) =~= judged_all::<
            I,
            A,
            P,
        >(judged_all::<I, B, Q>(rest, q), p));
    }
}

/// Of a stream the included items and the errors are kept, in their order, and nothing else is.
pub proof fn law_included_items_and_errors_are_kept<V>(
    outcomes: Seq<Outcome<V>>,
    item: V,
    error: Error,
)
    ensures
        kept_of(Seq::<Outcome<V>>::empty()) == Seq::<Result<V, Error>>::empty(),
        kept_of(outcomes.push(Outcome::Include(item))) == kept_of(outcomes).push(Ok(item)),
        kept_of(outcomes.push(Outcome::Error(error))) == kept_of(outcomes).push(Err(error)),
        kept_of(outcomes.push(Outcome::Exclude(item))) == kept_of(outcomes),
        kept_of(outcomes.push(Outcome::Absent)) == kept_of(outcomes),
    decreases outcomes.len(),
{
    reveal_with_fuel(kept_of, 2);
    if outcomes.len() > 0 {
        let rest = outcomes.skip(1);
        law_included_items_and_errors_are_kept(rest, item, error);
        assert forall|o: Outcome<V>| #[trigger] outcomes.push(o).skip(1) =~= rest.push(o) by {}
        assert(outcomes.push(Outcome::Include(item)).skip(1) =~= rest.push(Outcome::Include(item)));
        assert(outcomes.push(Outcome::Error(error)).skip(1) =~= rest.push(Outcome::Error(error)));
        assert(outcomes.push(Outcome::Exclude(item)).skip(1) =~= rest.push(Outcome::Exclude(item)));
        assert(outcomes.push(Outcome::Absent).skip(1) =~= rest.push(Outcome::Absent));
        assert(kept_of(outcomes.push(Outcome::Include(item))) =~= kept_of(outcomes).push(Ok(item)));
        assert(kept_of(outcomes.push(Outcome::Error(error))) =~= kept_of(outcomes).push(Err(error)));
    } else {
        assert(outcomes.push(Outcome::Include(item)).skip(1) =~= Seq::<Outcome<V>>::empty());
        assert(outcomes.push(Outcome::Error(error)).skip(1) =~= Seq::<Outcome<V>>::empty());
        assert(outcomes.push(Outcome::Exclude(item)).skip(1) =~= Seq::<Outcome<V>>::empty());
        assert(outcomes.push(Outcome::Absent).skip(1) =~= Seq::<Outcome<V>>::empty());
        assert(kept_of(outcomes.push(Outcome::Include(item))) =~= kept_of(outcomes).push(Ok(item)));
        assert(kept_of(outcomes.push(Outcome::Error(error))) =~= kept_of(outcomes).push(Err(error)));
    }
}

/// Of a stream the excluded items and the errors are rejected, in their order, and nothing else is.
pub proof fn law_excluded_items_and_errors_are_rejected<V>(
    outcomes: Seq<Outcome<V>>,
    item: V,
    error: Error,
)
    ensures
        rejected_of(Seq::<Outcome<V>>::empty()) == Seq::<Result<V, Error>>::empty(),
        rejected_of(outcomes.push(Outcome::Exclude(item))) == rejected_of(outcomes).push(Ok(item)),
        rejected_of(outcomes.push(Outcome::Error(error))) == rejected_of(outcomes).push(Err(error)),
        rejected_of(outcomes.push(Outcome::Include(item))) == rejected_of(outcomes),
        rejected_of(outcomes.push(Outcome::Absent)) == rejected_of(outcomes),
    decreases outcomes.len(),
{
    reveal_with_fuel(rejected_of, 2);
    let (a, b, c, d) = (
        outcomes.push(Outcome::Exclude(item)),
        outcomes.push(Outcome::Error(error)),
        outcomes.push(Outcome::Include(item)),
        outcomes.push(Outcome::Absent),
    );
    let rest = if outcomes.len() > 0 {
        outcomes.skip(1)
    } else {
        Seq::empty()
    };
    if outcomes.len() > 0 {
        law_excluded_items_and_errors_are_rejected(rest, item, error);
        assert(a.skip(1) =~= rest.push(Outcome::Exclude(item)));
        assert(b.skip(1) =~= rest.push(Outcome::Error(error)));
        assert(c.skip(1) =~= rest.push(Outcome::Include(item)));
        assert(d.skip(1) =~= rest.push(Outcome::Absent));
    } else {
        assert(a.skip(1) =~= rest);
        assert(b.skip(1) =~= rest);
        assert(c.skip(1) =~= rest);
        assert(d.skip(1) =~= rest);
    }
    assert(rejected_of(a) =~= rejected_of(outcomes).push(Ok(item)));
    assert(rejected_of(b) =~= rejected_of(outcomes).push(Err(error)));
}

/// Skipping drops as many elements from the front as there are, up to the number asked for, and
/// retaining keeps as many, so that both together are the whole.
pub proof fn law_skipping_and_retaining_split<A>(seq: Seq<A>, n: nat)
    ensures
        upto(seq, n) + past(seq, n) == seq,
        upto(seq, n).len() == (if n < seq.len() {
            n
        } else {
            seq.len()
        }),
{
    assert(upto(seq, n) + past(seq, n) =~= seq);
}

/// What a stream that skips or ends early still gives: with the number left to drop or to pull, both
/// together are the stream behind them.
pub proof fn law_skipped_and_limited_streams_split<S: Stream>(stream: S, left: usize)
    ensures
        (Limited { stream, left }).rest() + (Skipped { stream, left }).rest() == stream.rest(),
        (Limited { stream, left }).rest().len() == (if left < stream.rest().len() {
            left as nat
        } else {
            stream.rest().len()
        }),
{
    law_skipping_and_retaining_split(stream.rest(), left as nat);
}

/// A tested stream gives an outcome for each one of the stream behind it, in order: an included item
/// stays included if and only if its operand satisfies the predicate, and is excluded otherwise.
pub proof fn law_tested_streams_keep_their_places<S: Stream, P: Predicate<Op>, Op: DeepView>(
    judged: Judged<S, P, Op>,
    i: int,
) where S::Item: Evaluate<Op>
    requires
        0 <= i < judged.stream.rest().len(),
    ensures
        judged.rest().len() == judged.stream.rest().len(),
        judged.rest()[i] == (match judged.stream.rest()[i] {
            Outcome::Include(item) => if S::Item::operand(item) matches Some(op)
                && judged.predicate.held().admits(op) {
                Outcome::Include(item)
            } else {
                Outcome::Exclude(item)
            },
            other => other,
        }),
{
}

/// A narrowed stream gives an outcome for each one of the stream behind it, in order: what a present
/// item carries in place of the item, and nothing in place of an absent one.
pub proof fn law_narrowed_streams_keep_their_places<I: DeepView, S: Stream<Item = Option<I>>>(
    narrowed: Narrowed<S>,
    i: int,
)
    requires
        0 <= i < narrowed.stream.rest().len(),
    ensures
        narrowed.rest().len() == narrowed.stream.rest().len(),
        narrowed.rest()[i] == (match narrowed.stream.rest()[i] {
            Outcome::Include(Some(item)) => Outcome::Include(item),
            Outcome::Exclude(Some(item)) => Outcome::Exclude(item),
            Outcome::Include(None) | Outcome::Exclude(None) | Outcome::Absent => Outcome::Absent,
            Outcome::Error(e) => Outcome::Error(e),
        }),
{
}

/// Draining a stream gives its outcomes, collecting it gives what is included in them, and collecting
/// what is excluded gives the rest.
pub proof fn law_collecting_gives_what_is_left<S: Stream>(
    stream: S,
    drained: Vec<Outcome<S::Item>>,
    kept: Included<S>,
    items: Vec<Result<S::Item, Error>>,
    others: Vec<Result<S::Item, Error>>,
)
    requires
        call_ensures(drain::<S>, (stream,), drained),
        call_ensures(included::<S>, (stream,), kept),
        call_ensures(Included::<S>::collect, (kept,), items),
        call_ensures(excluded::<S>, (stream,), others),
    ensures
        drained.deep_view() == stream.rest(),
        items@.map_values(|item: Result<S::Item, Error>| viewed(item)) == kept_of(
            drained.deep_view(),
        ),
        others@.map_values(|item: Result<S::Item, Error>| viewed(item)) == rejected_of(
            drained.deep_view(),
        ),
{
    assert(items@.map_values(|item: Result<S::Item, Error>| viewed(item)) =~= viewed_all(items@));
    assert(others@.map_values(|item: Result<S::Item, Error>| viewed(item)) =~= viewed_all(others@));
}

} // verus!
