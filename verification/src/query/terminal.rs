//! What a read adapter can be collected into.

use crate::hashed::{empty_map, empty_set, enter, keyed, known, note};
use crate::io::error::{Error, NumberError};
use crate::order::Total;
use crate::query::predicate::{count_less, listed};
use crate::query::resolve::{outcomes, read, Adapter, Chain, Source};
use crate::read::outcome::Outcome;
use crate::read::stream::{included, kept_of, Included, Skipped, Stream, Yields};
use crate::unsigned::Unsigned;
use std::collections::{HashMap, HashSet};
use std::hash::Hash;
use vstd::prelude::*;
use vstd::std_specs::hash::obeys_key_model;
use xxhash_rust::xxh3::Xxh3Builder;

verus! {

/// The items, or the first error among them.
pub open spec fn collected<V>(items: Seq<Result<V, Error>>) -> Result<Seq<V>, Error>
    decreases items.len(),
{
    if items.len() == 0 {
        Ok(Seq::empty())
    } else {
        match items[0] {
            Err(e) => Err(e),
            Ok(item) => match collected(items.skip(1)) {
                Err(e) => Err(e),
                Ok(rest) => Ok(seq![item] + rest),
            },
        }
    }
}

/// The items that an adapter includes, or the first error.
pub open spec fn included_items<'d, A: Adapter<'d>>(adapter: A) -> Result<
    Seq<<<A as Source<'d>>::Item as DeepView>::V>,
    Error,
> {
    match outcomes(adapter) {
        Err(e) => Err(e),
        Ok(slots) => collected(kept_of(slots)),
    }
}

/// Whether each item is less than every later one.
pub open spec fn strictly_ascending<I: Total>(items: Seq<I>) -> bool {
    forall|i: int, j: int|
        0 <= i < j < items.len() ==> I::below(
            (#[trigger] items[i]).deep_view(),
            (#[trigger] items[j]).deep_view(),
        )
}

/// Adds an item to ascending items, unless it is there.
fn insert_key<I: Total>(items: &mut Vec<I>, item: I)
    requires
        strictly_ascending(old(items)@),
    ensures
        strictly_ascending(final(items)@),
        forall|v: I::V| #[trigger]
            listed(final(items)@, v) <==> listed(old(items)@, v) || v == item.deep_view(),
{
    let ghost all = items@;
    proof {
        assert forall|i: int, j: int| 0 <= i < j < all.len() implies I::within(
            (#[trigger] all[i]).deep_view(),
            (#[trigger] all[j]).deep_view(),
        ) by {
            I::chain(all[i].deep_view(), all[j].deep_view(), all[j].deep_view());
        }
    }
    let at: usize = count_less(items, &item);
    if at < items.len() && items[at].at_most(&item) {
        proof {
            I::total(all[at as int].deep_view(), item.deep_view());
            assert(listed(all, item.deep_view()));
        }
        return;
    }
    items.insert(at, item);
    proof {
        let more = items@;
        assert forall|i: int| 0 <= i < all.len() implies (#[trigger] all[i]) == more[if i < at {
            i
        } else {
            i + 1
        }] by {}
        assert forall|v: I::V| #[trigger]
            listed(more, v) <==> listed(all, v) || v == item.deep_view() by {
            if listed(all, v) {
                let i = choose|i: int| 0 <= i < all.len() && (#[trigger] all[i]).deep_view() == v;
                assert(more[if i < at {
                    i
                } else {
                    i + 1
                }].deep_view() == v);
            }
            if v == item.deep_view() {
                assert(more[at as int].deep_view() == v);
            }
            if listed(more, v) {
                let i = choose|i: int| 0 <= i < more.len() && (#[trigger] more[i]).deep_view() == v;
                if i < at {
                    assert(all[i] == more[i]);
                } else if i > at {
                    assert(all[i - 1] == more[i]);
                }
            }
        }
        assert forall|i: int, j: int| 0 <= i < j < more.len() implies I::below(
            (#[trigger] more[i]).deep_view(),
            (#[trigger] more[j]).deep_view(),
        ) by {
            let (a, b) = (if i < at { i } else { i - 1 }, if j < at { j } else { j - 1 });
            if i != at {
                assert(more[i] == all[a]);
            }
            if j != at {
                assert(more[j] == all[b]);
            }
            if i == at {
                I::total(all[b].deep_view(), item.deep_view());
                I::total(item.deep_view(), all[b].deep_view());
                I::total(all[at as int].deep_view(), item.deep_view());
                if b > at {
                    I::chain(item.deep_view(), all[at as int].deep_view(), all[b].deep_view());
                    I::chain(
                        all[at as int].deep_view(),
                        all[b].deep_view(),
                        all[b].deep_view(),
                    );
                }
            }
        }
    }
}

/// Collects the distinct items of a stream in ascending order.
#[verifier::loop_isolation(false)]
fn sort_keys<S: Stream>(items: Included<S>) -> (keys: Result<Vec<S::Item>, Error>) where
    S::Item: Total,

    ensures
        match keys {
            Ok(k) => {
                &&& collected(items.rest()) is Ok
                &&& strictly_ascending(k@)
                &&& forall|v: <S::Item as DeepView>::V| #[trigger]
                    listed(k@, v) <==> collected(items.rest())->Ok_0.contains(v)
            },
            Err(e) => collected(items.rest()) == Err::<Seq<<S::Item as DeepView>::V>, Error>(e),
        },
{
    let ghost all = items.rest();
    let mut stream: Included<S> = items;
    let mut keys: Vec<S::Item> = Vec::new();
    let ghost mut seen: Seq<<S::Item as DeepView>::V> = Seq::empty();
    loop
        invariant
            strictly_ascending(keys@),
            forall|v: <S::Item as DeepView>::V| #[trigger] listed(keys@, v) <==> seen.contains(v),
            match collected(stream.rest()) {
                Ok(rest) => collected(all) == Ok::<_, Error>(seen + rest),
                Err(e) => collected(all) == Err::<Seq<<S::Item as DeepView>::V>, Error>(e),
            },
        decreases stream.rest().len(),
    {
        match stream.next() {
            None => {
                assert(seen + Seq::<<S::Item as DeepView>::V>::empty() =~= seen);
                return Ok(keys);
            },
            Some(Err(e)) => {
                return Err(e);
            },
            Some(Ok(item)) => {
                let ghost before = seen;
                proof {
                    seen = seen.push(item.deep_view());
                    assert forall|v: <S::Item as DeepView>::V| #[trigger]
                        seen.contains(v) <==> before.contains(v) || v == item.deep_view() by {
                        if before.contains(v) {
                            let i = choose|i: int| 0 <= i < before.len() && before[i] == v;
                            assert(seen[i] == v);
                        }
                        if v == item.deep_view() {
                            assert(seen[before.len() as int] == v);
                        }
                    }
                    if let Ok(rest) = collected(stream.rest()) {
                        assert(before + (seq![item.deep_view()] + rest) =~= seen + rest);
                    }
                }
                insert_key(&mut keys, item);
            },
        }
    }
}

/// The distinct items that an adapter includes, in ascending order.
pub fn into_btree_set<'d, A: Adapter<'d>>(adapter: A) -> (keys: Result<
    Vec<<A as Source<'d>>::Item>,
    Error,
>) where <A as Source<'d>>::Item: Total
    ensures
        match keys {
            Ok(k) => {
                &&& included_items(adapter) is Ok
                &&& strictly_ascending(k@)
                &&& forall|v: <<A as Source<'d>>::Item as DeepView>::V| #[trigger]
                    listed(k@, v) <==> included_items(adapter)->Ok_0.contains(v)
            },
            Err(e) => included_items(adapter) == Err::<
                Seq<<<A as Source<'d>>::Item as DeepView>::V>,
                Error,
            >(e),
        },
{
    match read(adapter) {
        Ok(stream) => sort_keys(included(stream)),
        Err(e) => Err(e),
    }
}

/// The distinct items of a stream.
#[verifier::loop_isolation(false)]
fn hash_items<S: Stream>(items: Included<S>) -> (set: Result<HashSet<S::Item, Xxh3Builder>, Error>) where
    S::Item: Eq + Hash,

    ensures
        match set {
            Ok(s) => {
                &&& collected(items.rest()) is Ok
                &&& keyed::<S::Item>() ==> forall|item: S::Item| #[trigger]
                    s@.contains(item) <==> collected(items.rest())->Ok_0.contains(item.deep_view())
            },
            Err(e) => collected(items.rest()) == Err::<Seq<<S::Item as DeepView>::V>, Error>(e),
        },
{
    let ghost all = items.rest();
    let mut stream: Included<S> = items;
    let mut set: HashSet<S::Item, Xxh3Builder> = empty_set();
    let ghost mut seen: Seq<<S::Item as DeepView>::V> = Seq::empty();
    loop
        invariant
            keyed::<S::Item>() ==> forall|item: S::Item| #[trigger]
                set@.contains(item) <==> seen.contains(item.deep_view()),
            match collected(stream.rest()) {
                Ok(rest) => collected(all) == Ok::<_, Error>(seen + rest),
                Err(e) => collected(all) == Err::<Seq<<S::Item as DeepView>::V>, Error>(e),
            },
        decreases stream.rest().len(),
    {
        match stream.next() {
            None => {
                assert(seen + Seq::<<S::Item as DeepView>::V>::empty() =~= seen);
                return Ok(set);
            },
            Some(Err(e)) => {
                return Err(e);
            },
            Some(Ok(item)) => {
                let ghost before = seen;
                proof {
                    seen = seen.push(item.deep_view());
                    assert forall|v: <S::Item as DeepView>::V| #[trigger]
                        seen.contains(v) <==> before.contains(v) || v == item.deep_view() by {
                        if before.contains(v) {
                            let i = choose|i: int| 0 <= i < before.len() && before[i] == v;
                            assert(seen[i] == v);
                        }
                        if v == item.deep_view() {
                            assert(seen[before.len() as int] == v);
                        }
                    }
                    if let Ok(rest) = collected(stream.rest()) {
                        assert(before + (seq![item.deep_view()] + rest) =~= seen + rest);
                    }
                }
                enter(&mut set, item);
            },
        }
    }
}

/// The distinct items that an adapter includes.
pub fn into_hash_set<'d, A: Adapter<'d>>(adapter: A) -> (set: Result<
    HashSet<<A as Source<'d>>::Item, Xxh3Builder>,
    Error,
>) where <A as Source<'d>>::Item: Eq + Hash
    ensures
        match set {
            Ok(s) => {
                &&& included_items(adapter) is Ok
                &&& keyed::<<A as Source<'d>>::Item>() ==> forall|item: <A as Source<'d>>::Item| #[trigger]
                    s@.contains(item) <==> included_items(adapter)->Ok_0.contains(item.deep_view())
            },
            Err(e) => included_items(adapter) == Err::<
                Seq<<<A as Source<'d>>::Item as DeepView>::V>,
                Error,
            >(e),
        },
{
    match read(adapter) {
        Ok(stream) => hash_items(included(stream)),
        Err(e) => Err(e),
    }
}

// ---------------------------------------------------------------- interning

/// What ends the interning of `items` after `seen`: the first error, or the first new item whose place is
/// past `largest`. A repeated item needs no place of its own.
pub open spec fn interrupted<V>(seen: Seq<V>, items: Seq<Result<V, Error>>, largest: nat) -> Option<
    Error,
>
    decreases items.len(),
{
    if items.len() == 0 {
        None
    } else {
        match items[0] {
            Err(e) => Some(e),
            Ok(item) => if seen.len() > largest && !seen.contains(item) {
                Some(Error::Number(NumberError::Zero))
            } else {
                interrupted(seen.push(item), items.skip(1), largest)
            },
        }
    }
}

/// What can end the interning of `items` whatever the hash collections tell apart: the first error among
/// them or, where there are more items than places, the want of a place.
pub open spec fn interruptible<V>(items: Seq<Result<V, Error>>, largest: nat, error: Error) -> bool {
    ||| collected(items) == Err::<Seq<V>, Error>(error)
    ||| error == Error::Number(NumberError::Zero) && items.len() > largest + 1
}

/// Whether `item` first occurs at place `at`.
pub open spec fn first_at<V>(items: Seq<V>, item: V, at: nat) -> bool {
    &&& at < items.len()
    &&& items[at as int] == item
    &&& forall|i: int| 0 <= i < at ==> items[i] != item
}

/// Whether hash collections can tell items apart by their value, and only by it.
pub open spec fn told_apart<Y: Yields>() -> bool {
    &&& obeys_key_model::<Y::Item>()
    &&& forall|a: Y::Item, b: Y::Item| #[trigger]
        Y::value(a) == #[trigger] Y::value(b) ==> a == b
}

/// Whether `map` holds each of `items` with the place of its first occurrence, and nothing else.
pub open spec fn interned<Y: Yields, N: Unsigned>(
    map: Map<Y::Item, N>,
    items: Seq<Y::Value>,
) -> bool {
    &&& forall|item: Y::Item| #[trigger] map.contains_key(item) <==> items.contains(Y::value(item))
    &&& forall|item: Y::Item| #[trigger]
        map.contains_key(item) ==> first_at(items, Y::value(item), map[item].number())
}

/// Maps each distinct item of a stream to the place of its first occurrence. Repeated items count too.
#[verifier::loop_isolation(false)]
pub fn intern<Y: Yields, N: Unsigned>(items: Y) -> (map: Result<
    HashMap<Y::Item, N, Xxh3Builder>,
    Error,
>) where Y::Item: Eq + Hash
    ensures
        match map {
            Ok(m) => {
                &&& collected(items.left()) is Ok
                &&& told_apart::<Y>() ==> interrupted(Seq::empty(), items.left(), N::largest()) is None
                &&& told_apart::<Y>() ==> interned::<Y, N>(m@, collected(items.left())->Ok_0)
            },
            Err(e) => {
                &&& interruptible(items.left(), N::largest(), e)
                &&& told_apart::<Y>() ==> interrupted(Seq::empty(), items.left(), N::largest())
                    == Some(e)
            },
        },
{
    let ghost all = items.left();
    let mut stream: Y = items;
    let mut map: HashMap<Y::Item, N, Xxh3Builder> = empty_map();
    let mut next: Option<N> = Some(N::smallest());
    let ghost mut seen: Seq<Y::Value> = Seq::empty();
    loop
        invariant
            told_apart::<Y>() ==> interned::<Y, N>(map@, seen),
            match next {
                Some(n) => n.number() == seen.len() && seen.len() <= N::largest(),
                None => seen.len() > N::largest(),
            },
            all.len() == seen.len() + stream.left().len(),
            told_apart::<Y>() ==> interrupted(seen, stream.left(), N::largest()) == interrupted(
                Seq::empty(),
                all,
                N::largest(),
            ),
            match collected(stream.left()) {
                Ok(rest) => collected(all) == Ok::<_, Error>(seen + rest),
                Err(e) => collected(all) == Err::<Seq<Y::Value>, Error>(e),
            },
        decreases stream.left().len(),
    {
        let item = match stream.pull() {
            None => {
                assert(seen + Seq::<Y::Value>::empty() =~= seen);
                return Ok(map);
            },
            Some(item) => item,
        };
        let item: Y::Item = match item {
            Ok(item) => item,
            Err(e) => {
                return Err(e);
            },
        };
        let ghost before = seen;
        let ghost entries = map@;
        if !known(&map, &item) {
            match next {
                Some(index) => note(&mut map, item, index),
                None => {
                    return Err(Error::Number(NumberError::Zero));
                },
            }
        }
        if let Some(index) = next {
            next = index.next();
        }
        proof {
            let v = Y::value(item);
            seen = seen.push(v);
            if let Ok(rest) = collected(stream.left()) {
                assert(before + (seq![v] + rest) =~= seen + rest);
            }
            assert forall|w: Y::Value| #[trigger]
                seen.contains(w) <==> before.contains(w) || w == v by {
                if before.contains(w) {
                    let i = choose|i: int| 0 <= i < before.len() && before[i] == w;
                    assert(seen[i] == w);
                }
                if w == v {
                    assert(seen[before.len() as int] == w);
                }
            }
            if told_apart::<Y>() {
                assert forall|key: Y::Item| #[trigger] map@.contains_key(key) implies first_at(
                    seen,
                    Y::value(key),
                    map@[key].number(),
                ) by {
                    if entries.contains_key(key) {
                        assert(first_at(before, Y::value(key), entries[key].number()));
                    } else {
                        assert(key == item);
                        assert(!before.contains(v));
                        assert forall|i: int| 0 <= i < before.len() implies seen[i] != v by {
                            assert(before.contains(before[i]));
                        }
                    }
                }
            }
        }
    }
}

/// Maps each distinct item that an adapter includes to the place of its first occurrence among them.
pub fn into_hash_map<'d, A: Adapter<'d>, N: Unsigned>(adapter: A) -> (map: Result<
    HashMap<<A as Source<'d>>::Item, N, Xxh3Builder>,
    Error,
>) where <A as Source<'d>>::Item: Eq + Hash
    ensures
        match outcomes(adapter) {
            Err(e) => map == Err::<HashMap<<A as Source<'d>>::Item, N, Xxh3Builder>, Error>(e),
            Ok(slots) => match map {
                Ok(m) => {
                    &&& collected(kept_of(slots)) is Ok
                    &&& keyed::<<A as Source<'d>>::Item>() ==> interrupted(
                        Seq::empty(),
                        kept_of(slots),
                        N::largest(),
                    ) is None
                    &&& keyed::<<A as Source<'d>>::Item>() ==> interned::<
                        Included<Skipped<<A::Chain as Chain<'d>>::Stream>>,
                        N,
                    >(m@, collected(kept_of(slots))->Ok_0)
                },
                Err(e) => {
                    &&& interruptible(kept_of(slots), N::largest(), e)
                    &&& keyed::<<A as Source<'d>>::Item>() ==> interrupted(
                        Seq::empty(),
                        kept_of(slots),
                        N::largest(),
                    ) == Some(e)
                },
            },
        },
{
    match read(adapter) {
        Ok(stream) => intern(included(stream)),
        Err(e) => Err(e),
    }
}

/// Whether the item at place `i` after `seen` occurred before.
pub open spec fn repeated_at<V>(seen: Seq<V>, items: Seq<Result<V, Error>>, i: int) -> bool {
    ||| seen.contains(items[i]->Ok_0)
    ||| exists|j: int| 0 <= j < i && #[trigger] items[j] == items[i]
}

/// Repeated items need no place: where every item is there, interning succeeds if and only if each item
/// past the largest place occurred before.
pub proof fn law_only_first_occurrences_need_a_place<V>(
    seen: Seq<V>,
    items: Seq<Result<V, Error>>,
    largest: nat,
)
    requires
        forall|i: int| 0 <= i < items.len() ==> (#[trigger] items[i]) is Ok,
    ensures
        interrupted(seen, items, largest) is None <==> forall|i: int|
            0 <= i < items.len() && seen.len() + i > largest ==> #[trigger] repeated_at(
                seen,
                items,
                i,
            ),
    decreases items.len(),
{
    if items.len() > 0 {
        let (first, rest) = (items[0]->Ok_0, items.skip(1));
        let more = seen.push(first);
        assert(items[0] is Ok);
        assert forall|i: int| 0 <= i < rest.len() implies (#[trigger] rest[i]) is Ok by {
            assert(rest[i] == items[i + 1]);
        }
        law_only_first_occurrences_need_a_place(more, rest, largest);
        assert forall|i: int| 0 <= i < rest.len() implies #[trigger] repeated_at(more, rest, i)
            == repeated_at(seen, items, i + 1) by {
            let v = rest[i]->Ok_0;
            assert(rest[i] is Ok);
            assert(rest[i] == items[i + 1]);
            if seen.contains(v) {
                let k = choose|k: int| 0 <= k < seen.len() && seen[k] == v;
                assert(more[k] == v);
            }
            if more.contains(v) && !seen.contains(v) {
                let k = choose|k: int| 0 <= k < more.len() && more[k] == v;
                assert(k == seen.len());
                assert(items[0] == items[i + 1]);
            }
            if exists|j: int| 0 <= j < i && #[trigger] rest[j] == rest[i] {
                let j = choose|j: int| 0 <= j < i && #[trigger] rest[j] == rest[i];
                assert(items[j + 1] == items[i + 1]);
            }
            if exists|j: int| 0 <= j < i + 1 && #[trigger] items[j] == items[i + 1] {
                let j = choose|j: int| 0 <= j < i + 1 && #[trigger] items[j] == items[i + 1];
                if j == 0 {
                    assert(more[seen.len() as int] == v);
                } else {
                    assert(rest[j - 1] == rest[i]);
                }
            }
        }
        assert(repeated_at(seen, items, 0) == seen.contains(first));
        if forall|i: int|
            0 <= i < items.len() && seen.len() + i > largest ==> #[trigger] repeated_at(
                seen,
                items,
                i,
            ) {
            assert forall|i: int| 0 <= i < rest.len() && more.len() + i > largest implies
                #[trigger] repeated_at(more, rest, i) by {
                assert(repeated_at(seen, items, i + 1));
            }
        }
        if interrupted(seen, items, largest) is None {
            assert forall|i: int| 0 <= i < items.len() && seen.len() + i > largest implies
                #[trigger] repeated_at(seen, items, i) by {
                if i > 0 {
                    assert(repeated_at(more, rest, i - 1));
                }
            }
        }
    }
}

/// Different items have different places, so that there are no more entries than places up to the
/// largest of them.
pub proof fn law_interned_places_differ<Y: Yields, N: Unsigned>(
    map: Map<Y::Item, N>,
    items: Seq<Y::Value>,
    a: Y::Item,
    b: Y::Item,
)
    requires
        interned::<Y, N>(map, items),
        map.contains_key(a),
        map.contains_key(b),
        Y::value(a) != Y::value(b),
    ensures
        map[a].number() != map[b].number(),
{
}

/// There are no more entries than items.
pub proof fn law_interned_no_more_than_items<Y: Yields, N: Unsigned>(
    map: Map<Y::Item, N>,
    items: Seq<Y::Value>,
)
    requires
        interned::<Y, N>(map, items),
        told_apart::<Y>(),
    ensures
        map.dom().finite() ==> map.dom().len() <= items.len(),
{
    if map.dom().finite() {
        let places = Set::new(|i: int| 0 <= i < items.len());
        let place = |item: Y::Item| map[item].number() as int;
        vstd::set_lib::lemma_int_range(0, items.len() as int);
        assert(places =~= vstd::set_lib::set_int_range(0, items.len() as int));
        let image = map.dom().map(place);
        assert(image.subset_of(places)) by {
            assert forall|i: int| image.contains(i) implies places.contains(i) by {
                let item = choose|item: Y::Item| map.dom().contains(item) && place(item) == i;
                assert(first_at(items, Y::value(item), map[item].number()));
            }
        }
        assert forall|a: Y::Item, b: Y::Item|
            map.dom().contains(a) && map.dom().contains(b) && place(a) == place(b) implies a == b by {
            assert(first_at(items, Y::value(a), map[a].number()));
            assert(first_at(items, Y::value(b), map[b].number()));
        }
        vstd::set_lib::lemma_map_size(map.dom(), image, place);
        vstd::set_lib::lemma_len_subset(image, places);
    }
}

/// Collecting gives every item in order, unless there is an error: then it gives the first.
pub proof fn law_collecting_gives_items_or_the_first_error<V>(
    items: Seq<Result<V, Error>>,
    failed: int,
)
    ensures
        (forall|i: int| 0 <= i < items.len() ==> (#[trigger] items[i]) is Ok) ==> collected(items) == Ok::<
            Seq<V>,
            Error,
        >(Seq::new(items.len(), |i: int| items[i]->Ok_0)),
        0 <= failed < items.len() && items[failed] is Err && (forall|i: int|
            0 <= i < failed ==> (#[trigger] items[i]) is Ok) ==> collected(items) == Err::<
            Seq<V>,
            Error,
        >(items[failed]->Err_0),
    decreases items.len(),
{
    if items.len() > 0 {
        let rest = items.skip(1);
        law_collecting_gives_items_or_the_first_error(rest, failed - 1);
        if forall|i: int| 0 <= i < items.len() ==> (#[trigger] items[i]) is Ok {
            assert forall|i: int| 0 <= i < rest.len() implies (#[trigger] rest[i]) is Ok by {
                assert(rest[i] == items[i + 1]);
            }
            assert(items[0] is Ok);
            assert(seq![items[0]->Ok_0] + Seq::new(rest.len(), |i: int| rest[i]->Ok_0) =~= Seq::new(
                items.len(),
                |i: int| items[i]->Ok_0,
            ));
        }
        if 0 < failed < items.len() && items[failed] is Err && (forall|i: int|
            0 <= i < failed ==> (#[trigger] items[i]) is Ok) {
            assert(items[0] is Ok);
            assert(rest[failed - 1] == items[failed]);
            assert forall|i: int| 0 <= i < failed - 1 implies (#[trigger] rest[i]) is Ok by {
                assert(rest[i] == items[i + 1]);
            }
        }
    } else {
        assert(Seq::new(0, |i: int| items[i]->Ok_0) =~= Seq::<V>::empty());
    }
}

/// The items of an ordered collection are the included ones of the adapter, each once and each before every
/// greater one.
pub proof fn law_ordered_collections_hold_what_is_included<'d, A: Adapter<'d>>(
    adapter: A,
    keys: Vec<<A as Source<'d>>::Item>,
    slots: Seq<Outcome<<<A as Source<'d>>::Item as DeepView>::V>>,
    item: <<A as Source<'d>>::Item as DeepView>::V,
) where <A as Source<'d>>::Item: Total
    requires
        call_ensures(into_btree_set::<A>, (adapter,), Ok(keys)),
        outcomes(adapter) == Ok::<_, Error>(slots),
    ensures
        keys.deep_view().contains(item) == slots.contains(Outcome::Include(item)),
        forall|i: int, j: int|
            0 <= i < j < keys.deep_view().len() ==> <<A as Source<'d>>::Item as crate::order::Ordered>::below(
                #[trigger] keys.deep_view()[i],
                #[trigger] keys.deep_view()[j],
            ),
{
    let all = keys.deep_view();
    assert(all.len() == keys@.len());
    lemma_collected(slots);
    if all.contains(item) {
        let i = choose|i: int| 0 <= i < all.len() && all[i] == item;
        assert(keys@[i].deep_view() == item);
        assert(listed(keys@, item));
    }
    if slots.contains(Outcome::Include(item)) {
        assert(listed(keys@, item));
        let i = choose|i: int| 0 <= i < keys@.len() && (#[trigger] keys@[i]).deep_view() == item;
        assert(all[i] == item);
    }
}

/// What is collected of a stream without errors is what it includes.
proof fn lemma_collected<V>(slots: Seq<Outcome<V>>)
    requires
        collected(kept_of(slots)) is Ok,
    ensures
        forall|item: V| #[trigger]
            collected(kept_of(slots))->Ok_0.contains(item) <==> slots.contains(Outcome::Include(item)),
    decreases slots.len(),
{
    if slots.len() > 0 {
        let rest = slots.skip(1);
        let (kept, tail) = (kept_of(slots), kept_of(rest));
        match slots[0] {
            Outcome::Include(first) => {
                assert(kept.skip(1) =~= tail);
                assert(kept[0] == Ok::<V, Error>(first));
            },
            Outcome::Error(e) => {
                assert(kept[0] == Err::<V, Error>(e));
            },
            _ => {
                assert(kept == tail);
            },
        }
        lemma_collected(rest);
        assert forall|item: V| #[trigger] collected(kept)->Ok_0.contains(item) <==> slots.contains(
            Outcome::Include(item),
        ) by {
            let (all, fewer) = (collected(kept)->Ok_0, collected(tail)->Ok_0);
            if let Outcome::Include(first) = slots[0] {
                assert(all == seq![first] + fewer);
                if fewer.contains(item) {
                    let i = choose|i: int| 0 <= i < fewer.len() && fewer[i] == item;
                    assert(all[i + 1] == item);
                }
                if item == first {
                    assert(all[0] == item);
                }
                if all.contains(item) && item != first {
                    let i = choose|i: int| 0 <= i < all.len() && all[i] == item;
                    assert(fewer[i - 1] == item);
                }
            }
            if rest.contains(Outcome::Include(item)) {
                let i = choose|i: int| 0 <= i < rest.len() && rest[i] == Outcome::Include(item);
                assert(slots[i + 1] == Outcome::Include(item));
            }
            if slots.contains(Outcome::Include(item)) {
                let i = choose|i: int| 0 <= i < slots.len() && slots[i] == Outcome::Include(item);
                if i > 0 {
                    assert(rest[i - 1] == Outcome::Include(item));
                }
            }
            if slots[0] == Outcome::Include(item) {
                assert(slots.contains(slots[0]));
            }
        }
    } else {
        assert(collected(kept_of(slots))->Ok_0 =~= Seq::<V>::empty());
    }
}

/// The items of a hashed collection are the included ones of the adapter.
pub proof fn law_hashed_collections_hold_what_is_included<'d, A: Adapter<'d>>(
    adapter: A,
    set: Result<HashSet<<A as Source<'d>>::Item, Xxh3Builder>, Error>,
    slots: Seq<Outcome<<<A as Source<'d>>::Item as DeepView>::V>>,
    item: <A as Source<'d>>::Item,
) where <A as Source<'d>>::Item: Eq + Hash
    requires
        keyed::<<A as Source<'d>>::Item>(),
        call_ensures(into_hash_set::<A>, (adapter,), set),
        outcomes(adapter) == Ok::<_, Error>(slots),
        set is Ok,
    ensures
        set->Ok_0@.contains(item) == slots.contains(Outcome::Include(item.deep_view())),
{
    lemma_collected(slots);
    let all = collected(kept_of(slots))->Ok_0;
    assert(set->Ok_0@.contains(item) == all.contains(item.deep_view()));
}

/// A map of items holds those of the source, each with the place at which it first occurs among them.
pub proof fn law_interned_items_are_placed_by_their_first_occurrence<Y: Yields, N: Unsigned>(
    items: Y,
    map: HashMap<Y::Item, N, Xxh3Builder>,
    values: Seq<Y::Value>,
    item: Y::Item,
) where Y::Item: Eq + Hash
    requires
        told_apart::<Y>(),
        call_ensures(intern::<Y, N>, (items,), Ok(map)),
        items.left().len() == values.len(),
        forall|i: int|
            0 <= i < values.len() ==> #[trigger] items.left()[i] == Ok::<Y::Value, Error>(values[i]),
    ensures
        map@.contains_key(item) <==> exists|i: int|
            0 <= i < values.len() && #[trigger] values[i] == Y::value(item),
        map@.contains_key(item) ==> {
            let at = map@[item].number() as int;
            &&& 0 <= at < values.len()
            &&& values[at] == Y::value(item)
            &&& forall|i: int| 0 <= i < at ==> #[trigger] values[i] != Y::value(item)
        },
{
    let left = items.left();
    assert forall|i: int| 0 <= i < left.len() implies (#[trigger] left[i]) is Ok by {}
    law_collecting_gives_items_or_the_first_error(left, 0);
    assert(Seq::new(left.len(), |i: int| left[i]->Ok_0) =~= values);
    if exists|i: int| 0 <= i < values.len() && #[trigger] values[i] == Y::value(item) {
        let i = choose|i: int| 0 <= i < values.len() && #[trigger] values[i] == Y::value(item);
        assert(values.contains(Y::value(item)));
    }
    if map@.contains_key(item) {
        assert(first_at(values, Y::value(item), map@[item].number()));
    }
}

/// Interning ends at the first error, or at the first new item that has no place, whichever comes first.
pub proof fn law_interning_ends_at_the_first_obstacle<V>(
    seen: Seq<V>,
    items: Seq<Result<V, Error>>,
    largest: nat,
    at: int,
)
    requires
        0 <= at < items.len(),
        forall|i: int| 0 <= i < at ==> (#[trigger] items[i]) is Ok,
        forall|i: int|
            0 <= i < at && seen.len() + i > largest ==> #[trigger] repeated_at(seen, items, i),
    ensures
        items[at] is Err ==> interrupted(seen, items, largest) == Some(items[at]->Err_0),
        items[at] is Ok && seen.len() + at > largest && !repeated_at(seen, items, at) ==> interrupted(
            seen,
            items,
            largest,
        ) == Some(Error::Number(NumberError::Zero)),
    decreases items.len(),
{
    assert(repeated_at(seen, items, 0) == seen.contains(items[0]->Ok_0));
    if at > 0 {
        let (first, rest) = (items[0]->Ok_0, items.skip(1));
        assert(items[0] is Ok);
        let more = seen.push(first);
        assert forall|i: int| 0 <= i < at - 1 implies (#[trigger] rest[i]) is Ok by {
            assert(rest[i] == items[i + 1]);
        }
        assert forall|i: int| 0 <= i < at && items[i + 1] is Ok implies #[trigger] repeated_at(
            more,
            rest,
            i,
        ) == repeated_at(seen, items, i + 1) by {
            let v = rest[i]->Ok_0;
            assert(rest[i] == items[i + 1]);
            if seen.contains(v) {
                let k = choose|k: int| 0 <= k < seen.len() && seen[k] == v;
                assert(more[k] == v);
            }
            if more.contains(v) && !seen.contains(v) {
                let k = choose|k: int| 0 <= k < more.len() && more[k] == v;
                assert(k == seen.len());
                assert(items[0] == items[i + 1]);
            }
            if exists|j: int| 0 <= j < i && #[trigger] rest[j] == rest[i] {
                let j = choose|j: int| 0 <= j < i && #[trigger] rest[j] == rest[i];
                assert(items[j + 1] == items[i + 1]);
            }
            if exists|j: int| 0 <= j < i + 1 && #[trigger] items[j] == items[i + 1] {
                let j = choose|j: int| 0 <= j < i + 1 && #[trigger] items[j] == items[i + 1];
                if j == 0 {
                    assert(more[seen.len() as int] == v);
                } else {
                    assert(rest[j - 1] == rest[i]);
                }
            }
        }
        assert forall|i: int| 0 <= i < at - 1 && more.len() + i > largest implies
            #[trigger] repeated_at(more, rest, i) by {
            assert(items[i + 1] is Ok);
            assert(repeated_at(seen, items, i + 1));
        }
        assert(rest[at - 1] == items[at]);
        assert(items[at] is Ok ==> repeated_at(more, rest, at - 1) == repeated_at(seen, items, at));
        law_interning_ends_at_the_first_obstacle(more, rest, largest, at - 1);
        assert(repeated_at(seen, items, 0) || seen.len() <= largest);
    }
}

} // verus!
