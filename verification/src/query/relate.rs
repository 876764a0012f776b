//! How reading an adapter relates to reading what it is made of.

use crate::io::error::Error;
use crate::order::{Ordered, Total};
use crate::io::deserialize::Deserialize;
use crate::manifest::buffer::{statistics, Buffer};
use crate::query::filter::{item_verdicts, repeated, span_verdicts, Filter, IsSome, Pruned};
use crate::query::iter;
use crate::query::join::{key_verdicts, other_verdicts, set_of, AntiJoin, SemiJoin};
use crate::query::mask::{every, Mask};
use crate::query::predicate::{Present, Span};
use crate::query::resolve::{outcomes, Adapter, Based, Chain, Resolve, Settled, Source};
use crate::query::source::lemma_sieved;
use crate::query::terminal::included_items;
use crate::query::window::{ahead, skipped, Skip, Take};
use crate::read::evaluate::{Evaluate, IsOption, Predicate};
use crate::read::item::Item;
use crate::read::outcome::Outcome;
use vstd::prelude::*;

verus! {

// ---------------------------------------------------------------- where adapters start

/// A test of items starts where its source does.
pub proof fn law_filters_start_where_their_source_does<'d, S: Chain<'d>, P: Predicate<Op>, Op: DeepView>(
    filter: Filter<S, P, Op>,
    pruned: Pruned<S, P, Op>,
    mask: Mask,
    places: (usize, usize),
    origins: (usize, usize),
) where S::Item: Evaluate<Op>
    requires
        call_ensures(<Filter<S, P, Op> as Chain<'d>>::origin, (&filter, &mask), places.0),
        call_ensures(<Pruned<S, P, Op> as Chain<'d>>::origin, (&pruned, &mask), places.1),
        call_ensures(S::origin, (&filter.source, &mask), origins.0),
        call_ensures(S::origin, (&pruned.source, &mask), origins.1),
    ensures
        places == origins,
{
}

/// A join starts where its source does.
pub proof fn law_joins_start_where_their_source_does<'d, S: Chain<'d>, I: Total>(
    semi: iter::SemiJoin<S, I>,
    anti: iter::AntiJoin<S, I>,
    mask: Mask,
    places: (usize, usize),
    origins: (usize, usize),
) where S::Item: Evaluate<I>
    requires
        call_ensures(<iter::SemiJoin<S, I> as Chain<'d>>::origin, (&semi, &mask), places.0),
        call_ensures(<iter::AntiJoin<S, I> as Chain<'d>>::origin, (&anti, &mask), places.1),
        call_ensures(S::origin, (&semi.source, &mask), origins.0),
        call_ensures(S::origin, (&anti.source, &mask), origins.1),
    ensures
        places == origins,
{
}

/// Presence and windows that end early start where their source does, and a skip starts later by what it
/// has left to skip in the buffer that it stopped at, unless that buffer is excluded.
pub proof fn law_windows_start_where_their_source_does<'d, S: Chain<'d>>(
    take: iter::Take<S>,
    skip: iter::Skip<S>,
    mask: Mask,
    places: (usize, usize),
    origins: (usize, usize),
)
    requires
        call_ensures(<iter::Take<S> as Chain<'d>>::origin, (&take, &mask), places.0),
        call_ensures(<iter::Skip<S> as Chain<'d>>::origin, (&skip, &mask), places.1),
        call_ensures(S::origin, (&take.source, &mask), origins.0),
        call_ensures(S::origin, (&skip.source, &mask), origins.1),
        origins.1 + skip.origin <= usize::MAX,
    ensures
        places.0 == origins.0,
        skip.buffer < mask@.len() && mask@[skip.buffer as int] ==> places.1 == origins.1 + skip.origin,
        skip.buffer >= mask@.len() || !mask@[skip.buffer as int] ==> places.1 == origins.1,
{
}

/// Presence starts where its source does.
pub proof fn law_presence_starts_where_its_source_does<'d, S: Chain<'d>>(
    present: IsSome<S>,
    mask: Mask,
    place: usize,
    origin: usize,
) where S::Item: IsOption
    requires
        call_ensures(<IsSome<S> as Chain<'d>>::origin, (&present, &mask), place),
        call_ensures(S::origin, (&present.source, &mask), origin),
    ensures
        place == origin,
{
}

// ---------------------------------------------------------------- tests

/// What a test makes of one outcome: an included item is included if it passes and excluded if it does
/// not, and any other outcome stays what it is.
pub open spec fn tested<V>(outcome: Outcome<V>, passes: spec_fn(V) -> bool) -> Outcome<V> {
    match outcome {
        Outcome::Include(item) => if passes(item) {
            Outcome::Include(item)
        } else {
            Outcome::Exclude(item)
        },
        Outcome::Exclude(item) => Outcome::Exclude(item),
        Outcome::Absent => Outcome::Absent,
        Outcome::Error(e) => Outcome::Error(e),
    }
}

/// Whether `after` is `before` with each outcome tested.
pub open spec fn each_tested<V>(
    before: Seq<Outcome<V>>,
    after: Seq<Outcome<V>>,
    passes: spec_fn(V) -> bool,
) -> bool {
    after.len() == before.len() && forall|i: int|
        0 <= i < before.len() ==> #[trigger] after[i] == tested(before[i], passes)
}

/// Whether an adapter leaves the buffers that its source leaves.
pub open spec fn leaves_the_same<'d, A: Adapter<'d>, S: Adapter<'d>>(adapter: A, source: S) -> bool {
    adapter.base() == source.base() && (adapter.settled(
        every(source.base().list().len()),
    ) matches Ok((left, _)) && (source.settled(every(source.base().list().len())) matches Ok((
        all,
        _,
    )) && left == all))
}

/// Where no buffer is excluded, a filter gives the outcomes of its source, each tested, whatever the source
/// is: a column, a window or another filter.
pub proof fn law_filters_test_what_their_source_gives<
    'd,
    S: Adapter<'d>,
    P: Predicate<Op>,
    Op: DeepView,
>(filter: Filter<S, P, Op>, before: Seq<Outcome<<S::Item as DeepView>::V>>) where
    S::Item: Evaluate<Op>,

    requires
        leaves_the_same(filter, filter.source),
        outcomes(filter.source) == Ok::<_, Error>(before),
    ensures
        outcomes(filter) matches Ok(after) && each_tested(
            before,
            after,
            |item: <S::Item as DeepView>::V|
                S::Item::operand(item) matches Some(op) && filter.predicate.held().admits(op),
        ),
{
}

/// Where no buffer is excluded, a filter with statistics gives the outcomes of its source, each tested.
pub proof fn law_pruning_filters_test_what_their_source_gives<
    'd,
    S: Adapter<'d>,
    P: Span<Op>,
    Op: Ordered + Deserialize<'d>,
>(filter: Pruned<S, P, Op>, before: Seq<Outcome<<S::Item as DeepView>::V>>) where
    S::Item: Evaluate<Op>,

    requires
        leaves_the_same(filter, filter.source),
        outcomes(filter.source) == Ok::<_, Error>(before),
    ensures
        outcomes(filter) matches Ok(after) && each_tested(
            before,
            after,
            |item: <S::Item as DeepView>::V|
                S::Item::operand(item) matches Some(op) && filter.predicate.held().admits(op),
        ),
{
}

/// Where no buffer is excluded, a semi-join gives the outcomes of its source, each tested for whether its
/// operand is one of the included items of the other column.
pub proof fn law_semi_joins_test_what_their_source_gives<'d, S: Adapter<'d>, K: Adapter<'d>>(
    join: SemiJoin<S, K>,
    before: Seq<Outcome<<S::Item as DeepView>::V>>,
    keys: Seq<<K::Item as DeepView>::V>,
) where S::Item: Evaluate<K::Item>, K::Item: Total + Deserialize<'d>
    requires
        leaves_the_same(join, join.source),
        outcomes(join.source) == Ok::<_, Error>(before),
        included_items(join.keys) == Ok::<_, Error>(keys),
    ensures
        outcomes(join) matches Ok(after) && each_tested(
            before,
            after,
            |item: <S::Item as DeepView>::V|
                S::Item::operand(item) matches Some(op) && keys.contains(op),
        ),
{
}

/// Where no buffer is excluded, an anti-join gives the outcomes of its source, each tested for whether its
/// operand is none of the included items of the other column.
pub proof fn law_anti_joins_test_what_their_source_gives<'d, S: Adapter<'d>, K: Adapter<'d>>(
    join: AntiJoin<S, K>,
    before: Seq<Outcome<<S::Item as DeepView>::V>>,
    keys: Seq<<K::Item as DeepView>::V>,
) where S::Item: Evaluate<K::Item>, K::Item: Total
    requires
        leaves_the_same(join, join.source),
        outcomes(join.source) == Ok::<_, Error>(before),
        included_items(join.keys) == Ok::<_, Error>(keys),
    ensures
        outcomes(join) matches Ok(after) && each_tested(
            before,
            after,
            |item: <S::Item as DeepView>::V|
                S::Item::operand(item) matches Some(op) && !keys.contains(op),
        ),
{
}

/// Where no buffer is excluded, presence gives the outcomes of its source, with what a present item carries
/// in place of the item and nothing in place of an absent one.
pub proof fn law_presence_narrows_what_its_source_gives<
    'd,
    J: Item,
    S: Adapter<'d> + Source<'d, Item = Option<J>>,
>(present: IsSome<S>, before: Seq<Outcome<Option<J::V>>>)
    requires
        leaves_the_same(present, present.source),
        outcomes(present.source) == Ok::<_, Error>(before),
    ensures
        outcomes(present) matches Ok(after) && {
            &&& after.len() == before.len()
            &&& forall|i: int|
                0 <= i < before.len() ==> #[trigger] after[i] == (match before[i] {
                    Outcome::Include(Some(item)) => Outcome::Include(item),
                    Outcome::Exclude(Some(item)) => Outcome::Exclude(item),
                    Outcome::Error(e) => Outcome::Error(e),
                    _ => Outcome::Absent,
                })
        },
{
}

// ---------------------------------------------------------------- excluded buffers

/// A filter excludes the compact buffers whose item it rejects, and no others.
pub proof fn law_filters_exclude_compact_buffers_that_fail<
    'd,
    S: Adapter<'d>,
    P: Predicate<Op>,
    Op: DeepView,
>(
    filter: Filter<S, P, Op>,
    mask: Seq<bool>,
    before: Seq<bool>,
    left: Seq<bool>,
    i: int,
) where
    S::Item: Evaluate<Op>,

    requires
        filter.source.settled(mask) matches Ok((b, _)) && b == before,
        filter.settled(mask) matches Ok((l, _)) && l == left,
        before.len() == filter.base().list().len(),
        0 <= i < before.len(),
    ensures
        left.len() == before.len(),
        left[i] == (before[i] && ({
            let map = filter.base().bytes();
            match filter.base().list()[i] {
                Buffer::Compact { buffer, .. } => repeated::<S::Raw>(buffer, map) matches Ok(raw)
                    && S::seen(raw) matches Some(item) && S::Item::operand(item) matches Some(op)
                    && filter.predicate.held().admits(op),
                _ => true,
            }
        })),
{
    let verdicts = item_verdicts::<S, P, Op>(filter.base(), filter.predicate.held());
    lemma_sieved(verdicts, before, 0);
    assert(left[i] == (before[i] && verdicts[i] == Ok::<bool, Error>(true)));
}

/// A filter with statistics excludes the compact buffers whose item it rejects and the detailed buffers whose
/// span it rules out, and no others.
pub proof fn law_pruning_filters_exclude_buffers_that_fail<
    'd,
    S: Adapter<'d>,
    P: Span<Op>,
    Op: Ordered + Deserialize<'d>,
>(
    filter: Pruned<S, P, Op>,
    mask: Seq<bool>,
    before: Seq<bool>,
    left: Seq<bool>,
    i: int,
) where
    S::Item: Evaluate<Op>,

    requires
        filter.source.settled(mask) matches Ok((b, _)) && b == before,
        filter.settled(mask) matches Ok((l, _)) && l == left,
        before.len() == filter.base().list().len(),
        0 <= i < before.len(),
    ensures
        left.len() == before.len(),
        left[i] == (before[i] && ({
            let map = filter.base().bytes();
            match filter.base().list()[i] {
                Buffer::Compact { buffer, .. } => repeated::<S::Raw>(buffer, map) matches Ok(raw)
                    && S::seen(raw) matches Some(item) && S::Item::operand(item) matches Some(op)
                    && filter.predicate.held().admits(op),
                Buffer::Detailed { min, max, .. } => statistics::<Op>(min, max, map) matches Ok((
                    lo,
                    hi,
                )) && filter.predicate.held().spans(lo, hi),
                Buffer::Basic { .. } => true,
            }
        })),
{
    let verdicts = span_verdicts::<S, P, Op>(filter.base(), filter.predicate.held());
    lemma_sieved(verdicts, before, 0);
    assert(left[i] == (before[i] && verdicts[i] == Ok::<bool, Error>(true)));
}

/// A semi-join excludes the compact buffers whose item is no key and the detailed buffers whose span holds no
/// key, and no others.
pub proof fn law_semi_joins_exclude_buffers_without_a_key<
    'd,
    S: Adapter<'d>,
    K: Adapter<'d>,
>(
    join: SemiJoin<S, K>,
    mask: Seq<bool>,
    before: Seq<bool>,
    left: Seq<bool>,
    i: int,
    keys: Seq<<K::Item as DeepView>::V>,
) where
    S::Item: Evaluate<K::Item>,
    K::Item: Total + Deserialize<'d>,

    requires
        join.source.settled(mask) matches Ok((b, _)) && b == before,
        join.settled(mask) matches Ok((l, _)) && l == left,
        before.len() == join.base().list().len(),
        0 <= i < before.len(),
        included_items(join.keys) == Ok::<_, Error>(keys),
    ensures
        left.len() == before.len(),
        left[i] == (before[i] && ({
            let map = join.base().bytes();
            match join.base().list()[i] {
                Buffer::Compact { buffer, .. } => repeated::<S::Raw>(buffer, map) matches Ok(raw)
                    && S::seen(raw) matches Some(item) && S::Item::operand(item) matches Some(op)
                    && keys.contains(op),
                Buffer::Detailed { min, max, .. } => statistics::<K::Item>(min, max, map) matches Ok((
                    lo,
                    hi,
                )) && exists|k: int|
                    0 <= k < keys.len() && K::Item::within(lo, #[trigger] keys[k]) && K::Item::within(
                        keys[k],
                        hi,
                    ),
                Buffer::Basic { .. } => true,
            }
        })),
{
    let verdicts = key_verdicts::<S, K::Item>(join.base(), set_of(keys));
    lemma_sieved(verdicts, before, 0);
    assert(left[i] == (before[i] && verdicts[i] == Ok::<bool, Error>(true)));
    if let Buffer::Detailed { min, max, .. } = join.base().list()[i] {
        if let Ok((lo, hi)) = statistics::<K::Item>(min, max, join.base().bytes()) {
            if exists|key: <K::Item as DeepView>::V| #[trigger]
                set_of(keys).contains(key) && K::Item::within(lo, key) && K::Item::within(key, hi) {
                let key = choose|key: <K::Item as DeepView>::V| #[trigger]
                    set_of(keys).contains(key) && K::Item::within(lo, key) && K::Item::within(key, hi);
                let k = choose|k: int| 0 <= k < keys.len() && keys[k] == key;
                assert(K::Item::within(lo, keys[k]));
            }
            if exists|k: int|
                0 <= k < keys.len() && K::Item::within(lo, #[trigger] keys[k]) && K::Item::within(
                    keys[k],
                    hi,
                ) {
                let k = choose|k: int|
                    0 <= k < keys.len() && K::Item::within(lo, #[trigger] keys[k]) && K::Item::within(
                        keys[k],
                        hi,
                    );
                assert(set_of(keys).contains(keys[k]));
            }
        }
    }
}

/// An anti-join excludes the compact buffers whose item is a key or has no operand, and no others.
pub proof fn law_anti_joins_exclude_compact_buffers_with_a_key<
    'd,
    S: Adapter<'d>,
    K: Adapter<'d>,
>(
    join: AntiJoin<S, K>,
    mask: Seq<bool>,
    before: Seq<bool>,
    left: Seq<bool>,
    i: int,
    keys: Seq<<K::Item as DeepView>::V>,
) where
    S::Item: Evaluate<K::Item>,
    K::Item: Total,

    requires
        join.source.settled(mask) matches Ok((b, _)) && b == before,
        join.settled(mask) matches Ok((l, _)) && l == left,
        before.len() == join.base().list().len(),
        0 <= i < before.len(),
        included_items(join.keys) == Ok::<_, Error>(keys),
    ensures
        left.len() == before.len(),
        left[i] == (before[i] && ({
            let map = join.base().bytes();
            match join.base().list()[i] {
                Buffer::Compact { buffer, .. } => repeated::<S::Raw>(buffer, map) matches Ok(raw)
                    && S::seen(raw) matches Some(item) && S::Item::operand(item) matches Some(op)
                    && !keys.contains(op),
                _ => true,
            }
        })),
{
    let verdicts = other_verdicts::<S, K::Item>(join.base(), set_of(keys));
    lemma_sieved(verdicts, before, 0);
    assert(left[i] == (before[i] && verdicts[i] == Ok::<bool, Error>(true)));
}

/// Presence excludes the compact buffers whose item is absent, and no others.
pub proof fn law_presence_excludes_compact_buffers_of_absent_items<
    'd,
    J: Item,
    S: Adapter<'d> + Source<'d, Item = Option<J>>,
>(present: IsSome<S>, mask: Seq<bool>, before: Seq<bool>, left: Seq<bool>, i: int)
    requires
        present.source.settled(mask) matches Ok((b, _)) && b == before,
        present.settled(mask) matches Ok((l, _)) && l == left,
        before.len() == present.base().list().len(),
        0 <= i < before.len(),
    ensures
        left.len() == before.len(),
        left[i] == (before[i] && (match present.base().list()[i] {
            Buffer::Compact { buffer, .. } => repeated::<S::Raw>(
                buffer,
                present.base().bytes(),
            ) matches Ok(raw) && S::seen(raw) matches Some(item) && item is Some,
            _ => true,
        })),
{
    let verdicts = item_verdicts::<S, Present, Option<J>>(present.base(), Present);
    lemma_sieved(verdicts, before, 0);
    assert(left[i] == (before[i] && verdicts[i] == Ok::<bool, Error>(true)));
}

/// The number of items in the included buffers before a place.
pub open spec fn items_before(buffers: Seq<Buffer>, mask: Seq<bool>, i: int) -> int
    decreases i,
{
    if i <= 0 {
        0
    } else {
        items_before(buffers, mask, i - 1) + if mask[i - 1] {
            buffers[i - 1].length() as int
        } else {
            0
        }
    }
}

/// Where a skip ends, the buffers that it covers whole are excluded.
proof fn lemma_skip_excludes(buffers: Seq<Buffer>, all: Seq<bool>, mask: Seq<bool>, skip: nat, n: nat, at: nat)
    requires
        mask.len() == buffers.len() == all.len(),
        at <= buffers.len(),
        forall|j: int| at <= j < all.len() ==> #[trigger] mask[j] == all[j],
        skip + items_before(buffers, all, at as int) == n,
        skipped(buffers, mask, skip, at) is Ok,
    ensures
        ({
            let left = skipped(buffers, mask, skip, at)->Ok_0.0;
            &&& left.len() == mask.len()
            &&& forall|j: int| 0 <= j < at ==> #[trigger] left[j] == mask[j]
            &&& forall|j: int|
                at <= j < mask.len() ==> #[trigger] left[j] == (all[j] && items_before(
                    buffers,
                    all,
                    j,
                ) + buffers[j].length() > n)
        }),
    decreases buffers.len() - at,
{
    if at < buffers.len() {
        let i = at as int;
        if !mask[i] {
            lemma_skip_excludes(buffers, all, mask, skip, n, at + 1);
        } else {
            let count = buffers[i].length() as nat;
            if skip >= count {
                lemma_skip_excludes(
                    buffers,
                    all,
                    mask.update(i, false),
                    (skip - count) as nat,
                    n,
                    at + 1,
                );
                let left = skipped(buffers, mask.update(i, false), (skip - count) as nat, at + 1)->Ok_0.0;
                assert(left[i] == mask.update(i, false)[i]);
            } else {
                assert forall|j: int| at <= j < mask.len() implies #[trigger] mask[j] == (all[j]
                    && items_before(buffers, all, j) + buffers[j].length() > n) by {
                    if i < j {
                        lemma_items_before(buffers, all, i + 1, j);
                    }
                }
            }
        }
    }
}

/// No fewer items are before a later place.
proof fn lemma_items_before(buffers: Seq<Buffer>, mask: Seq<bool>, i: int, j: int)
    requires
        0 <= i <= j <= buffers.len(),
        mask.len() == buffers.len(),
    ensures
        items_before(buffers, mask, i) <= items_before(buffers, mask, j),
    decreases j - i,
{
    if i < j {
        lemma_items_before(buffers, mask, i, j - 1);
    }
}

/// A skip excludes the buffers that the skipped items cover whole, and no others.
pub proof fn law_skips_exclude_buffers_that_they_cover<'d, S: Adapter<'d>>(
    window: Skip<S>,
    mask: Seq<bool>,
    before: Seq<bool>,
    left: Seq<bool>,
    i: int,
)
    requires
        window.source.settled(mask) matches Ok((b, _)) && b == before,
        window.settled(mask) matches Ok((l, _)) && l == left,
        before.len() == window.base().list().len(),
        0 <= i < before.len(),
    ensures
        left.len() == before.len(),
        left[i] == (before[i] && items_before(window.base().list(), before, i)
            + window.base().list()[i].length() > window.skip),
{
    lemma_skip_excludes(
        window.base().list(),
        before,
        before,
        window.skip as nat,
        window.skip as nat,
        0,
    );
    assert(left[i] == (before[i] && items_before(window.base().list(), before, i)
        + window.base().list()[i].length() > window.skip));
}

/// The items ahead of a place are those before it.
proof fn lemma_ahead_is_before(buffers: Seq<Buffer>, mask: Seq<bool>, i: nat)
    requires
        i <= buffers.len(),
    ensures
        ahead(buffers, mask, i) == items_before(buffers, mask, i as int),
    decreases i,
{
    if i > 0 {
        lemma_ahead_is_before(buffers, mask, (i - 1) as nat);
    }
}

/// A window excludes the buffers that begin at or beyond its end, and no others. An empty window excludes
/// every buffer.
pub proof fn law_windows_exclude_buffers_past_their_end<'d, S: Adapter<'d>>(
    window: Take<S>,
    mask: Seq<bool>,
    before: Seq<bool>,
    model: <S::Ok as Settled<'d>>::Model,
    left: Seq<bool>,
    i: int,
)
    requires
        window.source.settled(mask) == Ok::<_, Error>((before, model)),
        window.settled(mask) matches Ok((l, _)) && l == left,
        before.len() == window.base().list().len(),
        0 <= i < before.len(),
        window.take + S::Chain::start(model, before) <= usize::MAX,
    ensures
        left.len() == before.len(),
        left[i] == (before[i] && window.take > 0 && items_before(window.base().list(), before, i)
            < window.take + S::Chain::start(model, before)),
{
    lemma_ahead_is_before(window.base().list(), before, i as nat);
}

// ---------------------------------------------------------------- errors

/// What a source fails with, an adapter over it fails with, and leaves the mask as the source leaves it.
pub proof fn law_errors_of_a_source_are_passed_on<
    'd,
    S: Adapter<'d>,
    P: Span<Op>,
    Op: Ordered + Deserialize<'d>,
>(
    filter: Filter<S, P, Op>,
    pruned: Pruned<S, P, Op>,
    skip: Skip<S>,
    take: Take<S>,
    mask: Seq<bool>,
    e: Error,
) where S::Item: Evaluate<Op>
    requires
        filter.source == pruned.source && filter.source == skip.source && filter.source == take.source,
        filter.source.settled(mask) == Err::<(Seq<bool>, <S::Ok as Settled<'d>>::Model), Error>(e),
    ensures
        filter.settled(mask) matches Err(x) && x == e,
        pruned.settled(mask) matches Err(x) && x == e,
        skip.settled(mask) matches Err(x) && x == e,
        take.settled(mask) matches Err(x) && x == e,
        filter.abandoned(mask) == filter.source.abandoned(mask),
        pruned.abandoned(mask) == filter.source.abandoned(mask),
        skip.abandoned(mask) == filter.source.abandoned(mask),
        take.abandoned(mask) == filter.source.abandoned(mask),
{
}

/// A join whose keys cannot be read fails with their error and leaves the mask, and one whose source fails
/// does so with the error of the source.
pub proof fn law_joins_fail_by_their_keys_first<'d, S: Adapter<'d>, K: Adapter<'d>>(
    semi: SemiJoin<S, K>,
    anti: AntiJoin<S, K>,
    mask: Seq<bool>,
) where S::Item: Evaluate<K::Item>, K::Item: Total + Deserialize<'d>
    requires
        semi.source == anti.source,
        semi.keys == anti.keys,
    ensures
        included_items(semi.keys) matches Err(e) ==> {
            &&& semi.settled(mask) matches Err(x) && x == e
            &&& anti.settled(mask) matches Err(y) && y == e
            &&& semi.abandoned(mask) == mask
            &&& anti.abandoned(mask) == mask
        },
        included_items(semi.keys) is Ok ==> (semi.source.settled(mask) matches Err(e) ==> {
            &&& semi.settled(mask) matches Err(x) && x == e
            &&& anti.settled(mask) matches Err(y) && y == e
            &&& semi.abandoned(mask) == semi.source.abandoned(mask)
            &&& anti.abandoned(mask) == semi.source.abandoned(mask)
        }),
{
}

} // verus!
