//! Building and reading chains of adapters.

use crate::bit_match;
use crate::bounds::Bounds;
use crate::hashed::keyed;
use crate::io::error::Error;
use crate::order::{Ordered, Total};
use crate::query;
use crate::query::combine::{Adjunct, Conjunct, Disjunct};
use crate::query::filter::{
    BitMatch, Filter, IsNone, IsSome, OneOf, OneOfSet, OneOfSorted, Pruned, Range,
};
use crate::query::join::{AntiJoin, SemiJoin};
use crate::query::predicate::{
    in_order, steady, Candidates, Closure, Exact, Except, Hashed, Missing, Sorted,
};
use crate::query::resolve::{outcomes, Adapter, Based, Chain, Source};
use crate::query::terminal::{
    collected, included_items, interned, interrupted, interruptible, strictly_ascending,
};
use crate::query::window::{Skip, Take};
use crate::read::evaluate::{Evaluate, IsOption, Predicate};
use crate::read::item::Item;
use crate::read::outcome::Outcome;
use crate::read::stream::{included, kept_of, Included, Ready, Skipped, Stream};
use crate::unsigned::Unsigned;
use std::collections::{HashMap, HashSet};
use std::hash::Hash;
use vstd::prelude::*;
use xxhash_rust::xxh3::Xxh3Builder;

verus! {

/// What reading the item at place `n` of an adapter gives.
pub open spec fn item_at<'d, A: Adapter<'d>>(adapter: A, n: usize) -> Result<
    Option<<<A as Source<'d>>::Item as DeepView>::V>,
    Error,
> {
    match outcomes(Take { source: Skip { source: adapter, skip: n }, take: 1 }) {
        Err(e) => Err(e),
        Ok(slots) => if kept_of(slots).len() == 0 {
            Ok(None)
        } else {
            match kept_of(slots)[0] {
                Ok(item) => Ok(Some(item)),
                Err(e) => Err(e),
            }
        },
    }
}

/// The first included item of a stream, if there is one and no error comes before it.
fn first_kept<S: Stream>(stream: S) -> (item: Result<Option<S::Item>, Error>)
    ensures
        match item {
            Ok(Some(i)) => kept_of(stream.rest()).len() > 0 && kept_of(stream.rest())[0] == Ok::<
                _,
                Error,
            >(i.deep_view()),
            Ok(None) => kept_of(stream.rest()).len() == 0,
            Err(e) => kept_of(stream.rest()).len() > 0 && kept_of(stream.rest())[0] == Err::<
                <S::Item as DeepView>::V,
                Error,
            >(e),
        },
{
    let mut items: Included<S> = included(stream);
    match items.next() {
        None => Ok(None),
        Some(Ok(item)) => Ok(Some(item)),
        Some(Err(e)) => Err(e),
    }
}

/// Reads the item at place `n`, if there is one and it is included.
pub fn nth<'d, A: Adapter<'d>>(adapter: A, n: usize) -> (item: Result<
    Option<<A as Source<'d>>::Item>,
    Error,
>)
    ensures
        match item {
            Ok(Some(i)) => item_at(adapter, n) == Ok::<_, Error>(Some(i.deep_view())),
            Ok(None) => item_at(adapter, n) == Ok::<
                Option<<<A as Source<'d>>::Item as DeepView>::V>,
                Error,
            >(None),
            Err(e) => item_at(adapter, n) == Err::<
                Option<<<A as Source<'d>>::Item as DeepView>::V>,
                Error,
            >(e),
        },
{
    let window = Take { source: Skip { source: adapter, skip: n }, take: 1 };
    match query::resolve::read(window) {
        Ok(stream) => first_kept(stream),
        Err(e) => Err(e),
    }
}

/// The adapters and terminals of a column.
pub trait Refine<'d>: Adapter<'d> {
    /// Retains the items for which `filter` holds.
    fn filter<Op: DeepView, F: Fn(&Op) -> bool>(self, filter: F) -> (adapter: Filter<
        Self,
        Closure<F>,
        Op,
    >) where Self::Item: Evaluate<Op>
        requires
            steady::<Op, F>(filter),
        ensures
            adapter.source == self,
            adapter.predicate.held() == (Closure { filter }),
    {
        Filter { source: self, predicate: Ready::new(Closure { filter }) }
    }

    /// Retains the items within a range.
    fn range<Op: Ordered>(self, bounds: Bounds<Op>) -> (adapter: Range<Self, Op>) where
        Self::Item: Evaluate<Op>,

        ensures
            adapter.source == self,
            adapter.predicate.held() == bounds,
    {
        Pruned { source: self, predicate: Ready::new(bounds) }
    }

    /// Retains the items that are bit-identical to `item`.
    fn eq<Op: Ordered + bit_match::BitMatch>(self, item: Op) -> (adapter: BitMatch<Self, Op>) where
        Self::Item: Evaluate<Op>,

        ensures
            adapter.source == self,
            adapter.predicate.held() == (Exact { item }),
    {
        Pruned { source: self, predicate: Ready::new(Exact { item }) }
    }

    /// Retains the items that are not bit-identical to `item`.
    fn ne<Op: bit_match::BitMatch>(self, item: Op) -> (adapter: Filter<
        Self,
        Except<Exact<Op>>,
        Op,
    >) where Self::Item: Evaluate<Op>
        ensures
            adapter.source == self,
            adapter.predicate.held() == (Except { predicate: Exact { item } }),
    {
        Filter { source: self, predicate: Ready::new(Except { predicate: Exact { item } }) }
    }

    /// Retains the items that are bit-identical to one of `items`.
    fn one_of<Op: Ordered + bit_match::BitMatch>(self, items: Vec<Op>) -> (adapter: OneOf<
        Self,
        Op,
    >) where Self::Item: Evaluate<Op>
        ensures
            adapter.source == self,
            adapter.predicate.held() == (Candidates { items }),
    {
        Pruned { source: self, predicate: Ready::new(Candidates { items }) }
    }

    /// Retains the items that are bit-identical to none of `items`.
    fn none_of<Op: bit_match::BitMatch>(self, items: Vec<Op>) -> (adapter: Filter<
        Self,
        Except<Candidates<Op>>,
        Op,
    >) where Self::Item: Evaluate<Op>
        ensures
            adapter.source == self,
            adapter.predicate.held() == (Except { predicate: Candidates { items } }),
    {
        Filter { source: self, predicate: Ready::new(Except { predicate: Candidates { items } }) }
    }

    /// Retains the items that equal one of `items`, which are in order.
    fn one_of_sorted<Op: Total>(self, items: Vec<Op>) -> (adapter: OneOfSorted<Self, Op>) where
        Self::Item: Evaluate<Op>,

        requires
            in_order(items@),
        ensures
            adapter.source == self,
            adapter.predicate.held() == (Sorted { items }),
    {
        Pruned { source: self, predicate: Ready::new(Sorted { items }) }
    }

    /// Retains the items that equal none of `items`, which are in order.
    fn none_of_sorted<Op: Total>(self, items: Vec<Op>) -> (adapter: Filter<
        Self,
        Except<Sorted<Op>>,
        Op,
    >) where Self::Item: Evaluate<Op>
        requires
            in_order(items@),
        ensures
            adapter.source == self,
            adapter.predicate.held() == (Except { predicate: Sorted { items } }),
    {
        Filter { source: self, predicate: Ready::new(Except { predicate: Sorted { items } }) }
    }

    /// Retains the items that equal one of `items`, which are hashed.
    fn one_of_set<Op: Item + Ordered + Eq + Hash>(self, items: Vec<Op>) -> (adapter: OneOfSet<
        Self,
        Op,
    >) where Self::Item: Evaluate<Op>
        requires
            keyed::<Op>(),
        ensures
            adapter.source == self,
            adapter.predicate.held().held() == items@,
    {
        Pruned { source: self, predicate: Ready::new(Hashed::new(items)) }
    }

    /// Retains the items that equal none of `items`, which are hashed.
    fn none_of_set<Op: Item + Eq + Hash>(self, items: Vec<Op>) -> (adapter: Filter<
        Self,
        Except<Hashed<Op>>,
        Op,
    >) where Self::Item: Evaluate<Op>
        requires
            keyed::<Op>(),
        ensures
            adapter.source == self,
            adapter.predicate.held().predicate.held() == items@,
    {
        Filter { source: self, predicate: Ready::new(Except { predicate: Hashed::new(items) }) }
    }

    /// Retains the present items, narrowed to what they carry.
    fn is_some(self) -> (adapter: IsSome<Self>) where Self::Item: IsOption
        ensures
            adapter.source == self,
    {
        IsSome { source: self }
    }

    /// Retains the absent items.
    fn is_none(self) -> (adapter: IsNone<Self, Self::Item>) where Self::Item: IsOption
        ensures
            adapter.source == self,
            adapter.predicate.held() == Missing,
    {
        Filter { source: self, predicate: Ready::new(Missing) }
    }

    /// Retains the items whose operand the column `keys` holds.
    fn semi_join<K: Adapter<'d>>(self, keys: K) -> (adapter: SemiJoin<Self, K>)
        ensures
            adapter.source == self,
            adapter.keys == keys,
    {
        SemiJoin { source: self, keys }
    }

    /// Retains the items whose operand the column `keys` does not hold.
    fn anti_join<K: Adapter<'d>>(self, keys: K) -> (adapter: AntiJoin<Self, K>)
        ensures
            adapter.source == self,
            adapter.keys == keys,
    {
        AntiJoin { source: self, keys }
    }

    /// Skips the first `skip` items.
    fn skip(self, skip: usize) -> (adapter: Skip<Self>)
        ensures
            adapter == (Skip { source: self, skip }),
    {
        Skip { source: self, skip }
    }

    /// Retains the first `take` items.
    fn take(self, take: usize) -> (adapter: Take<Self>)
        ensures
            adapter == (Take { source: self, take }),
    {
        Take { source: self, take }
    }

    /// Reads the outcome of every slot.
    fn read(self) -> (stream: Result<Skipped<<Self::Chain as Chain<'d>>::Stream>, Error>)
        ensures
            match stream {
                Ok(s) => outcomes(self) == Ok::<_, Error>(s.rest()),
                Err(e) => outcomes(self) == Err::<
                    Seq<Outcome<<<Self as Source<'d>>::Item as DeepView>::V>>,
                    Error,
                >(e),
            },
    {
        query::resolve::read(self)
    }

    /// The distinct items, in ascending order.
    fn into_btree_set(self) -> (keys: Result<Vec<<Self as Source<'d>>::Item>, Error>) where
        <Self as Source<'d>>::Item: Total,

        ensures
            match keys {
                Ok(k) => {
                    &&& included_items(self) is Ok
                    &&& strictly_ascending(k@)
                    &&& forall|v: <<Self as Source<'d>>::Item as DeepView>::V| #[trigger]
                        query::predicate::listed(k@, v) <==> included_items(self)->Ok_0.contains(v)
                },
                Err(e) => included_items(self) == Err::<
                    Seq<<<Self as Source<'d>>::Item as DeepView>::V>,
                    Error,
                >(e),
            },
    {
        query::terminal::into_btree_set(self)
    }

    /// The distinct items.
    fn into_hash_set(self) -> (set: Result<
        HashSet<<Self as Source<'d>>::Item, Xxh3Builder>,
        Error,
    >) where <Self as Source<'d>>::Item: Eq + Hash
        ensures
            match set {
                Ok(s) => {
                    &&& included_items(self) is Ok
                    &&& keyed::<<Self as Source<'d>>::Item>() ==> forall|
                        item: <Self as Source<'d>>::Item,
                    | #[trigger]
                        s@.contains(item) <==> included_items(self)->Ok_0.contains(
                            item.deep_view(),
                        )
                },
                Err(e) => included_items(self) == Err::<
                    Seq<<<Self as Source<'d>>::Item as DeepView>::V>,
                    Error,
                >(e),
            },
    {
        query::terminal::into_hash_set(self)
    }

    /// Maps each distinct item to the place of its first occurrence among the included items.
    fn into_hash_map<N: Unsigned>(self) -> (map: Result<
        HashMap<<Self as Source<'d>>::Item, N, Xxh3Builder>,
        Error,
    >) where <Self as Source<'d>>::Item: Eq + Hash
        ensures
            match outcomes(self) {
                Err(e) => map == Err::<
                    HashMap<<Self as Source<'d>>::Item, N, Xxh3Builder>,
                    Error,
                >(e),
                Ok(slots) => match map {
                    Ok(m) => {
                        &&& collected(kept_of(slots)) is Ok
                        &&& keyed::<<Self as Source<'d>>::Item>() ==> interrupted(
                            Seq::empty(),
                            kept_of(slots),
                            N::largest(),
                        ) is None
                        &&& keyed::<<Self as Source<'d>>::Item>() ==> interned::<
                            Included<Skipped<<Self::Chain as Chain<'d>>::Stream>>,
                            N,
                        >(m@, collected(kept_of(slots))->Ok_0)
                    },
                    Err(e) => {
                        &&& interruptible(kept_of(slots), N::largest(), e)
                        &&& keyed::<<Self as Source<'d>>::Item>() ==> interrupted(
                            Seq::empty(),
                            kept_of(slots),
                            N::largest(),
                        ) == Some(e)
                    },
                },
            },
    {
        query::terminal::into_hash_map(self)
    }
}

impl<'d, A: Adapter<'d>> Refine<'d> for A {

}

/// The combinations of parts of one query.
pub trait Join<'d>: Based<'d> + Sized {
    /// The intersection with another part of the same query.
    fn and<B: Based<'d>>(self, other: B) -> (joined: Result<Conjunct<Self, B>, query::error::Error>)
        ensures
            match joined {
                Ok(j) => j.a == self && j.b == other && *self.base().query.schema
                    == *other.base().query.schema,
                Err(e) => e is Join,
            },
    {
        query::combine::and(self, other)
    }

    /// The union with another part of the same query.
    fn or<B: Based<'d>>(self, other: B) -> (joined: Result<Disjunct<Self, B>, query::error::Error>)
        ensures
            match joined {
                Ok(j) => j.a == self && j.b == other && *self.base().query.schema
                    == *other.base().query.schema,
                Err(e) => e is Join,
            },
    {
        query::combine::or(self, other)
    }

    /// The symmetric difference with another part of the same query.
    fn xor<B: Based<'d>>(self, other: B) -> (joined: Result<Adjunct<Self, B>, query::error::Error>)
        ensures
            match joined {
                Ok(j) => j.a == self && j.b == other && *self.base().query.schema
                    == *other.base().query.schema,
                Err(e) => e is Join,
            },
    {
        query::combine::xor(self, other)
    }
}

impl<'d, A: Based<'d>> Join<'d> for A {

}

// ---------------------------------------------------------------- laws

/// Presence and absence keep their source, and absence admits absent items alone.
pub proof fn law_refinements_by_presence<'d, J: Item, A: Adapter<'d> + Source<'d, Item = Option<J>>>(
    source: A,
    present: IsSome<A>,
    absent: IsNone<A, Option<J>>,
    value: Option<J::V>,
)
    requires
        call_ensures(<A as Refine<'d>>::is_some, (source,), present),
        call_ensures(<A as Refine<'d>>::is_none, (source,), absent),
    ensures
        present.source == source,
        absent.source == source,
        Predicate::<Option<J>>::admits(&absent.predicate.held(), value) == (value is None),
{
}

/// Windows are over the source and the numbers that they are given.
pub proof fn law_refinements_by_place<'d, A: Adapter<'d>>(
    source: A,
    n: usize,
    skip: Skip<A>,
    take: Take<A>,
)
    requires
        call_ensures(<A as Refine<'d>>::skip, (source, n), skip),
        call_ensures(<A as Refine<'d>>::take, (source, n), take),
    ensures
        skip.source == source && skip.skip == n,
        take.source == source && take.take == n,
{
}

/// Reading the item at a place gives what reading that place alone gives.
pub proof fn law_nth_gives_the_item_of_its_place<'d, A: Adapter<'d>>(
    adapter: A,
    n: usize,
    item: Result<Option<<A as Source<'d>>::Item>, Error>,
)
    requires
        call_ensures(nth::<A>, (adapter, n), item),
    ensures
        ({
            let window = Take { source: Skip { source: adapter, skip: n }, take: 1 };
            match outcomes(window) {
                Err(e) => item == Err::<Option<<A as Source<'d>>::Item>, Error>(e),
                Ok(slots) => match item {
                    Ok(Some(i)) => kept_of(slots).len() > 0 && kept_of(slots)[0] == Ok::<_, Error>(
                        i.deep_view(),
                    ),
                    Ok(None) => kept_of(slots).len() == 0,
                    Err(e) => kept_of(slots).len() > 0 && kept_of(slots)[0] == Err::<
                        <<A as Source<'d>>::Item as DeepView>::V,
                        Error,
                    >(e),
                },
            }
        }),
{
}

} // verus!
