//! What a chain of filters keeps.

use crate::io::deserialize::Deserialize;
use crate::io::error::Error;
use crate::io::region::index;
use crate::manifest::buffer::{statistics, Buffer};
use crate::order::{Ordered, Total};
use crate::query::filter::{
    item_verdicts, repeated, span_verdicts, Filter, IsSome, Pruned,
};
use crate::query::items::{decoded, decoded_all, lifted_all};
use crate::query::iter::joined_all;
use crate::query::join::{key_verdicts, matches_keys, other_verdicts, set_of, AntiJoin, SemiJoin};
use crate::query::mask::every;
use crate::query::predicate::{Present, Span};
use crate::query::resolve::{outcomes, Adapter, Based, Chain, Resolve, Settled, Source};
use crate::query::source::{lemma_sieved, retained, sieved, Column};
use crate::query::terminal::included_items;
use crate::read::decode::Decode;
use crate::read::evaluate::{satisfies, Evaluate, Predicate};
use crate::read::item::Item;
use crate::read::outcome::Outcome;
use crate::read::stream::{
    judged_all, kept_of, law_included_items_and_errors_are_kept, narrowed, past,
};
use vstd::prelude::*;

verus! {

/// What a source makes of the items of its column.
pub open spec fn sight<'d, S: Source<'d>>() -> spec_fn(<S::Raw as DeepView>::V) -> Option<
    <S::Item as DeepView>::V,
> {
    |raw: <S::Raw as DeepView>::V| S::seen(raw)
}

/// What becomes of one decoded item: it is absent where it is not seen, and included where it passes.
pub open spec fn rendered_one<V, W>(
    item: Result<V, Error>,
    seen: spec_fn(V) -> Option<W>,
    passes: spec_fn(V) -> bool,
) -> Outcome<W> {
    match item {
        Err(e) => Outcome::Error(e),
        Ok(raw) => match seen(raw) {
            None => Outcome::Absent,
            Some(item) => if passes(raw) {
                Outcome::Include(item)
            } else {
                Outcome::Exclude(item)
            },
        },
    }
}

/// What becomes of decoded items.
pub open spec fn rendered<V, W>(
    items: Seq<Result<V, Error>>,
    seen: spec_fn(V) -> Option<W>,
    passes: spec_fn(V) -> bool,
) -> Seq<Outcome<W>> {
    items.map_values(|item: Result<V, Error>| rendered_one(item, seen, passes))
}

/// Whether the number of items that each buffer records is an index.
pub open spec fn countable(buffers: Seq<Buffer>) -> bool {
    forall|i: int| 0 <= i < buffers.len() ==> index((#[trigger] buffers[i]).length()) is Ok
}

/// Whether each item of a buffer can be decoded, and none is both seen and passes.
pub open spec fn barren<'d, S: Source<'d>>(
    buffer: Buffer,
    map: Seq<u8>,
    passes: spec_fn(<S::Raw as DeepView>::V) -> bool,
) -> bool {
    forall|j: int|
        0 <= j < decoded::<S::Raw>(buffer, map).len() ==> {
            &&& (#[trigger] decoded::<S::Raw>(buffer, map)[j]) is Ok
            &&& S::seen(decoded::<S::Raw>(buffer, map)[j]->Ok_0) is None || !passes(
                decoded::<S::Raw>(buffer, map)[j]->Ok_0,
            )
        }
}

/// Whether the statistics of every detailed buffer are those of its items: each item can be decoded,
/// and its operand, where it is seen and has one, lies between the smallest and the largest.
pub open spec fn faithful<'d, S: Source<'d>, Op: Ordered + Deserialize<'d>>(
    buffers: Seq<Buffer>,
    map: Seq<u8>,
) -> bool where S::Item: Evaluate<Op> {
    forall|i: int, j: int|
        0 <= i < buffers.len() && 0 <= j < decoded::<S::Raw>(buffers[i], map).len() ==> {
            (#[trigger] buffers[i]) matches Buffer::Detailed { min, max, .. } ==> {
                (#[trigger] decoded::<S::Raw>(buffers[i], map)[j]) matches Ok(raw) && {
                    statistics::<Op>(min, max, map) matches Ok((lo, hi)) ==> {
                        S::seen(raw) matches Some(item) ==> {
                            S::Item::operand(item) matches Some(op) ==> Op::within(lo, op)
                                && Op::within(op, hi)
                        }
                    }
                }
            }
        }
}

/// A chain of filters over one column.
pub trait Sieve<'d>: Adapter<'d> {
    /// Whether an item of the column passes every filter of the chain.
    spec fn passes(self) -> spec_fn(<Self::Raw as DeepView>::V) -> bool;

    /// Whether the statistics that the chain relies on are those of the items.
    spec fn honest(self) -> bool;

    /// A chain excludes only buffers without an item that passes, and judges the items of the others
    /// by whether they pass.
    proof fn lossless(self, mask: Seq<bool>, last: Seq<bool>)
        requires
            self.honest(),
            countable(self.base().list()),
            mask.len() == self.base().list().len(),
        ensures
            self.settled(mask) matches Ok((left, model)) ==> {
                &&& left.len() == mask.len()
                &&& forall|i: int|
                    0 <= i < mask.len() && mask[i] && !left[i] ==> barren::<Self>(
                        #[trigger] self.base().list()[i],
                        self.base().bytes(),
                        self.passes(),
                    )
                &&& Self::Chain::start(model, last) == 0
                &&& Self::Chain::slots(model, last) == Ok::<_, Error>(
                    rendered(
                        decoded_all::<Self::Raw>(
                            retained(self.base().list(), last),
                            self.base().bytes(),
                        ),
                        sight::<Self>(),
                        self.passes(),
                    ),
                )
            },
    ;
}

/// What passes a chain and then a test of what the chain makes of it.
pub open spec fn also<'d, S: Source<'d>>(
    passes: spec_fn(<S::Raw as DeepView>::V) -> bool,
    test: spec_fn(<S::Item as DeepView>::V) -> bool,
) -> spec_fn(<S::Raw as DeepView>::V) -> bool {
    |raw: <S::Raw as DeepView>::V| passes(raw) && S::seen(raw) is Some && test(S::seen(raw)->0)
}

/// What a predicate admits.
pub open spec fn admitted<I: Evaluate<Op>, Op: DeepView, P: Predicate<Op>>(predicate: P) -> spec_fn(
    I::V,
) -> bool {
    |item: I::V| satisfies::<I, Op, P>(item, predicate)
}

/// What is one of the keys, or is none of them.
pub open spec fn keyed_by<I: Evaluate<Op>, Op: DeepView>(keys: Set<Op::V>, wanted: bool) -> spec_fn(
    I::V,
) -> bool {
    |item: I::V| matches_keys::<I, Op>(item, keys, wanted)
}

/// Where no test from place `from` on fails, every tested verdict from there on is one.
pub proof fn lemma_tested(verdicts: Seq<Result<bool, Error>>, mask: Seq<bool>, from: nat, i: int)
    requires
        sieved(verdicts, mask, from).0 is None,
        mask.len() == verdicts.len(),
        from <= i < mask.len(),
        mask[i],
    ensures
        verdicts[i] is Ok,
    decreases i - from,
{
    if from < i {
        if !mask[from as int] {
            lemma_tested(verdicts, mask, from + 1, i);
        } else if verdicts[from as int] == Ok::<bool, Error>(true) {
            lemma_tested(verdicts, mask, from + 1, i);
        } else {
            lemma_tested(verdicts, mask.update(from as int, false), from + 1, i);
        }
    }
}

/// A buffer that holds nothing which passes a chain holds nothing which also passes a test.
proof fn lemma_barren<'d, S: Source<'d>>(
    buffer: Buffer,
    map: Seq<u8>,
    passes: spec_fn(<S::Raw as DeepView>::V) -> bool,
    test: spec_fn(<S::Item as DeepView>::V) -> bool,
)
    requires
        barren::<S>(buffer, map, passes),
    ensures
        barren::<S>(buffer, map, also::<S>(passes, test)),
{
}

/// A compact buffer whose item, where it is seen, fails a test holds nothing that passes it.
pub proof fn lemma_compact<'d, S: Source<'d>>(
    buffer: Buffer,
    map: Seq<u8>,
    passes: spec_fn(<S::Raw as DeepView>::V) -> bool,
    test: spec_fn(<S::Item as DeepView>::V) -> bool,
)
    requires
        buffer is Compact,
        index(buffer.length()) is Ok,
        repeated::<S::Raw>(buffer.place(), map) is Ok,
        S::seen(repeated::<S::Raw>(buffer.place(), map)->Ok_0) matches Some(item) ==> !test(item),
    ensures
        barren::<S>(buffer, map, also::<S>(passes, test)),
{
}

impl<'d, I: Decode<'d>> Sieve<'d> for Column<'d, I> {
    open spec fn passes(self) -> spec_fn(I::V) -> bool {
        |item: I::V| true
    }

    open spec fn honest(self) -> bool {
        true
    }

    proof fn lossless(self, mask: Seq<bool>, last: Seq<bool>) {
        let items = decoded_all::<I>(retained(self.src.list(), last), self.src.bytes());
        assert(rendered(items, sight::<Self>(), self.passes()) =~= lifted_all(items));
    }
}

impl<'d, S: Sieve<'d>, P: Predicate<Op>, Op: DeepView> Sieve<'d> for Filter<S, P, Op> where
    S::Item: Evaluate<Op>,
 {
    open spec fn passes(self) -> spec_fn(<S::Raw as DeepView>::V) -> bool {
        also::<S>(self.source.passes(), admitted::<S::Item, Op, P>(self.predicate.held()))
    }

    open spec fn honest(self) -> bool {
        self.source.honest()
    }

    proof fn lossless(self, mask: Seq<bool>, last: Seq<bool>) {
        let (buffers, map) = (self.base().list(), self.base().bytes());
        let predicate = self.predicate.held();
        let test = admitted::<S::Item, Op, P>(predicate);
        let verdicts = item_verdicts::<S, P, Op>(self.base(), predicate);
        self.source.lossless(mask, last);
        if let Ok((left, model)) = self.settled(mask) {
            let (rest, source) = self.source.settled(mask)->Ok_0;
            lemma_sieved(verdicts, rest, 0);
            assert forall|i: int| 0 <= i < mask.len() && mask[i] && !left[i] implies barren::<Self>(
                #[trigger] buffers[i],
                map,
                self.passes(),
            ) by {
                if !rest[i] {
                    lemma_barren::<S>(buffers[i], map, self.source.passes(), test);
                } else {
                    lemma_tested(verdicts, rest, 0, i);
                    assert(verdicts[i] == Ok::<bool, Error>(false));
                    match buffers[i] {
                        Buffer::Compact { .. } => {
                            lemma_compact::<S>(buffers[i], map, self.source.passes(), test);
                        },
                        _ => {},
                    }
                }
                assert(barren::<S>(buffers[i], map, self.passes()));
            }
            let items = decoded_all::<S::Raw>(retained(buffers, last), map);
            assert(judged_all::<S::Item, Op, P>(
                rendered(items, sight::<S>(), self.source.passes()),
                predicate,
            ) =~= rendered(items, sight::<Self>(), self.passes()));
        }
    }
}

impl<'d, S: Sieve<'d>, P: Span<Op>, Op: Ordered + Deserialize<'d>> Sieve<'d> for Pruned<S, P, Op> where
    S::Item: Evaluate<Op>,
 {
    open spec fn passes(self) -> spec_fn(<S::Raw as DeepView>::V) -> bool {
        also::<S>(self.source.passes(), admitted::<S::Item, Op, P>(self.predicate.held()))
    }

    open spec fn honest(self) -> bool {
        self.source.honest() && faithful::<S, Op>(self.base().list(), self.base().bytes())
    }

    proof fn lossless(self, mask: Seq<bool>, last: Seq<bool>) {
        let (buffers, map) = (self.base().list(), self.base().bytes());
        let predicate = self.predicate.held();
        let test = admitted::<S::Item, Op, P>(predicate);
        let verdicts = span_verdicts::<S, P, Op>(self.base(), predicate);
        self.source.lossless(mask, last);
        if let Ok((left, model)) = self.settled(mask) {
            let (rest, source) = self.source.settled(mask)->Ok_0;
            lemma_sieved(verdicts, rest, 0);
            assert forall|i: int| 0 <= i < mask.len() && mask[i] && !left[i] implies barren::<Self>(
                #[trigger] buffers[i],
                map,
                self.passes(),
            ) by {
                if !rest[i] {
                    lemma_barren::<S>(buffers[i], map, self.source.passes(), test);
                } else {
                    lemma_tested(verdicts, rest, 0, i);
                    assert(verdicts[i] == Ok::<bool, Error>(false));
                    match buffers[i] {
                        Buffer::Compact { .. } => {
                            lemma_compact::<S>(buffers[i], map, self.source.passes(), test);
                        },
                        Buffer::Detailed { min, max, .. } => {
                            let (lo, hi) = statistics::<Op>(min, max, map)->Ok_0;
                            let items = decoded::<S::Raw>(buffers[i], map);
                            assert forall|j: int| 0 <= j < items.len() implies (
                            #[trigger] items[j]) is Ok && (S::seen(items[j]->Ok_0) is None
                                || !self.passes()(items[j]->Ok_0)) by {
                                assert(items[j] is Ok);
                                if let Some(item) = S::seen(items[j]->Ok_0) {
                                    if satisfies::<S::Item, Op, P>(item, predicate) {
                                        predicate.sound(lo, hi, S::Item::operand(item)->0);
                                    }
                                }
                            }
                        },
                        Buffer::Basic { .. } => {},
                    }
                }
                assert(barren::<S>(buffers[i], map, self.passes()));
            }
            let items = decoded_all::<S::Raw>(retained(buffers, last), map);
            assert(judged_all::<S::Item, Op, P>(
                rendered(items, sight::<S>(), self.source.passes()),
                predicate,
            ) =~= rendered(items, sight::<Self>(), self.passes()));
        }
    }
}

impl<'d, S: Sieve<'d>, K: Adapter<'d>> Sieve<'d> for SemiJoin<S, K> where
    S::Item: Evaluate<K::Item>,
    K::Item: Total + Deserialize<'d>,
 {
    open spec fn passes(self) -> spec_fn(<S::Raw as DeepView>::V) -> bool {
        also::<S>(
            self.source.passes(),
            keyed_by::<S::Item, K::Item>(set_of(included_items(self.keys)->Ok_0), true),
        )
    }

    open spec fn honest(self) -> bool {
        self.source.honest() && faithful::<S, K::Item>(self.base().list(), self.base().bytes())
    }

    proof fn lossless(self, mask: Seq<bool>, last: Seq<bool>) {
        let (buffers, map) = (self.base().list(), self.base().bytes());
        let keys = set_of(included_items(self.keys)->Ok_0);
        let test = keyed_by::<S::Item, K::Item>(keys, true);
        let verdicts = key_verdicts::<S, K::Item>(self.base(), keys);
        self.source.lossless(mask, last);
        if let Ok((left, model)) = self.settled(mask) {
            let (rest, source) = self.source.settled(mask)->Ok_0;
            lemma_sieved(verdicts, rest, 0);
            assert forall|i: int| 0 <= i < mask.len() && mask[i] && !left[i] implies barren::<Self>(
                #[trigger] buffers[i],
                map,
                self.passes(),
            ) by {
                if !rest[i] {
                    lemma_barren::<S>(buffers[i], map, self.source.passes(), test);
                } else {
                    lemma_tested(verdicts, rest, 0, i);
                    assert(verdicts[i] == Ok::<bool, Error>(false));
                    match buffers[i] {
                        Buffer::Compact { .. } => {
                            lemma_compact::<S>(buffers[i], map, self.source.passes(), test);
                        },
                        Buffer::Detailed { min, max, .. } => {
                            let (lo, hi) = statistics::<K::Item>(min, max, map)->Ok_0;
                            let items = decoded::<S::Raw>(buffers[i], map);
                            assert forall|j: int| 0 <= j < items.len() implies (
                            #[trigger] items[j]) is Ok && (S::seen(items[j]->Ok_0) is None
                                || !self.passes()(items[j]->Ok_0)) by {
                                assert(items[j] is Ok);
                            }
                        },
                        Buffer::Basic { .. } => {},
                    }
                }
                assert(barren::<S>(buffers[i], map, self.passes()));
            }
            let items = decoded_all::<S::Raw>(retained(buffers, last), map);
            assert(joined_all::<S::Item, K::Item>(
                rendered(items, sight::<S>(), self.source.passes()),
                keys,
                true,
            ) =~= rendered(items, sight::<Self>(), self.passes()));
        }
    }
}

impl<'d, S: Sieve<'d>, K: Adapter<'d>> Sieve<'d> for AntiJoin<S, K> where
    S::Item: Evaluate<K::Item>,
    K::Item: Total,
 {
    open spec fn passes(self) -> spec_fn(<S::Raw as DeepView>::V) -> bool {
        also::<S>(
            self.source.passes(),
            keyed_by::<S::Item, K::Item>(set_of(included_items(self.keys)->Ok_0), false),
        )
    }

    open spec fn honest(self) -> bool {
        self.source.honest()
    }

    proof fn lossless(self, mask: Seq<bool>, last: Seq<bool>) {
        let (buffers, map) = (self.base().list(), self.base().bytes());
        let keys = set_of(included_items(self.keys)->Ok_0);
        let test = keyed_by::<S::Item, K::Item>(keys, false);
        let verdicts = other_verdicts::<S, K::Item>(self.base(), keys);
        self.source.lossless(mask, last);
        if let Ok((left, model)) = self.settled(mask) {
            let (rest, source) = self.source.settled(mask)->Ok_0;
            lemma_sieved(verdicts, rest, 0);
            assert forall|i: int| 0 <= i < mask.len() && mask[i] && !left[i] implies barren::<Self>(
                #[trigger] buffers[i],
                map,
                self.passes(),
            ) by {
                if !rest[i] {
                    lemma_barren::<S>(buffers[i], map, self.source.passes(), test);
                } else {
                    lemma_tested(verdicts, rest, 0, i);
                    assert(verdicts[i] == Ok::<bool, Error>(false));
                    match buffers[i] {
                        Buffer::Compact { .. } => {
                            lemma_compact::<S>(buffers[i], map, self.source.passes(), test);
                        },
                        _ => {},
                    }
                }
                assert(barren::<S>(buffers[i], map, self.passes()));
            }
            let items = decoded_all::<S::Raw>(retained(buffers, last), map);
            assert(joined_all::<S::Item, K::Item>(
                rendered(items, sight::<S>(), self.source.passes()),
                keys,
                false,
            ) =~= rendered(items, sight::<Self>(), self.passes()));
        }
    }
}

impl<'d, J: Item, S: Sieve<'d> + Source<'d, Item = Option<J>>> Sieve<'d> for IsSome<S> {
    /// Presence rejects no item that is seen: an absent one is not seen.
    open spec fn passes(self) -> spec_fn(<S::Raw as DeepView>::V) -> bool {
        self.source.passes()
    }

    open spec fn honest(self) -> bool {
        self.source.honest()
    }

    proof fn lossless(self, mask: Seq<bool>, last: Seq<bool>) {
        let (buffers, map) = (self.base().list(), self.base().bytes());
        let verdicts = item_verdicts::<S, Present, Option<J>>(self.base(), Present);
        self.source.lossless(mask, last);
        if let Ok((left, model)) = self.settled(mask) {
            let (rest, source) = self.source.settled(mask)->Ok_0;
            lemma_sieved(verdicts, rest, 0);
            assert forall|i: int| 0 <= i < mask.len() && mask[i] && !left[i] implies barren::<Self>(
                #[trigger] buffers[i],
                map,
                self.passes(),
            ) by {
                if !rest[i] {
                    assert(barren::<S>(buffers[i], map, self.source.passes()));
                } else {
                    lemma_tested(verdicts, rest, 0, i);
                    assert(verdicts[i] == Ok::<bool, Error>(false));
                }
            }
            let items = decoded_all::<S::Raw>(retained(buffers, last), map);
            assert(rendered(items, sight::<S>(), self.source.passes()).map_values(
                |outcome: Outcome<Option<J::V>>| narrowed::<Option<J>>(outcome),
            ) =~= rendered(items, sight::<Self>(), self.passes()));
        }
    }
}

/// What is kept of two streams, one after the other.
pub proof fn lemma_kept_sum<V>(a: Seq<Outcome<V>>, b: Seq<Outcome<V>>)
    ensures
        kept_of(a + b) == kept_of(a) + kept_of(b),
    decreases a.len(),
{
    if a.len() == 0 {
        assert(a + b =~= b);
        assert(kept_of(a) + kept_of(b) =~= kept_of(b));
    } else {
        lemma_kept_sum(a.skip(1), b);
        assert((a + b).skip(1) =~= a.skip(1) + b);
        assert(kept_of(a + b) =~= kept_of(a) + kept_of(b));
    }
}

/// Nothing is kept of a stream without included items and errors.
pub proof fn lemma_kept_none<V>(outcomes: Seq<Outcome<V>>)
    requires
        forall|i: int| 0 <= i < outcomes.len() ==> (#[trigger] outcomes[i]).kept() is None,
    ensures
        kept_of(outcomes) == Seq::<Result<V, Error>>::empty(),
    decreases outcomes.len(),
{
    if outcomes.len() > 0 {
        let rest = outcomes.skip(1);
        assert forall|i: int| 0 <= i < rest.len() implies (#[trigger] rest[i]).kept() is None by {
            assert(rest[i] == outcomes[i + 1]);
        }
        lemma_kept_none(rest);
    }
}

/// What is kept of the items of several buffers.
pub open spec fn kept_in<'d, S: Source<'d>>(
    buffers: Seq<Buffer>,
    map: Seq<u8>,
    passes: spec_fn(<S::Raw as DeepView>::V) -> bool,
) -> Seq<Result<<S::Item as DeepView>::V, Error>> {
    kept_of(rendered(decoded_all::<S::Raw>(buffers, map), sight::<S>(), passes))
}

/// What is kept of the items of a buffer and of those after it.
proof fn lemma_kept_first<'d, S: Source<'d>>(
    buffers: Seq<Buffer>,
    map: Seq<u8>,
    passes: spec_fn(<S::Raw as DeepView>::V) -> bool,
)
    requires
        buffers.len() > 0,
    ensures
        kept_in::<S>(buffers, map, passes) == kept_of(
            rendered(decoded::<S::Raw>(buffers[0], map), sight::<S>(), passes),
        ) + kept_in::<S>(buffers.skip(1), map, passes),
{
    let head = rendered(decoded::<S::Raw>(buffers[0], map), sight::<S>(), passes);
    let tail = rendered(decoded_all::<S::Raw>(buffers.skip(1), map), sight::<S>(), passes);
    lemma_kept_sum(head, tail);
    assert(rendered(decoded_all::<S::Raw>(buffers, map), sight::<S>(), passes) =~= head + tail);
}

/// Excluding buffers without an item that passes changes nothing of what is kept.
proof fn lemma_excluded<'d, S: Source<'d>>(
    buffers: Seq<Buffer>,
    map: Seq<u8>,
    passes: spec_fn(<S::Raw as DeepView>::V) -> bool,
    mask: Seq<bool>,
)
    requires
        mask.len() == buffers.len(),
        forall|i: int|
            0 <= i < buffers.len() && !mask[i] ==> barren::<S>(#[trigger] buffers[i], map, passes),
    ensures
        kept_in::<S>(retained(buffers, mask), map, passes) == kept_in::<S>(buffers, map, passes),
    decreases buffers.len(),
{
    if buffers.len() > 0 {
        let (rest, bits) = (buffers.skip(1), mask.skip(1));
        assert forall|i: int| 0 <= i < rest.len() && !bits[i] implies barren::<S>(
            #[trigger] rest[i],
            map,
            passes,
        ) by {
            assert(rest[i] == buffers[i + 1]);
        }
        lemma_excluded::<S>(rest, map, passes, bits);
        lemma_kept_first::<S>(buffers, map, passes);
        if mask[0] {
            let left = retained(buffers, mask);
            assert(left.skip(1) =~= retained(rest, bits));
            lemma_kept_first::<S>(left, map, passes);
        } else {
            let head = rendered(decoded::<S::Raw>(buffers[0], map), sight::<S>(), passes);
            assert(barren::<S>(buffers[0], map, passes));
            assert forall|j: int| 0 <= j < head.len() implies (#[trigger] head[j]).kept() is None by {
                assert(decoded::<S::Raw>(buffers[0], map)[j] is Ok);
            }
            lemma_kept_none(head);
            assert(kept_of(head) + kept_in::<S>(rest, map, passes) =~= kept_in::<S>(
                rest,
                map,
                passes,
            ));
        }
    }
}

/// Filters lose nothing and let nothing else pass: where a chain of filters can be read, and the
/// statistics that it relies on are those of the items, it keeps exactly the items of the whole column
/// that it sees and that pass every filter, in their order.
pub proof fn law_filters_keep_exactly_what_passes<'d, S: Sieve<'d>>(chain: S)
    requires
        countable(chain.base().list()),
        chain.honest(),
    ensures
        outcomes(chain) matches Ok(slots) ==> kept_of(slots) == kept_in::<S>(
            chain.base().list(),
            chain.base().bytes(),
            chain.passes(),
        ),
{
    let (buffers, map) = (chain.base().list(), chain.base().bytes());
    let all = every(buffers.len());
    if let Ok((mask, model)) = chain.settled(all) {
        chain.lossless(all, mask);
        assert forall|i: int| 0 <= i < buffers.len() && !mask[i] implies barren::<S>(
            #[trigger] buffers[i],
            map,
            chain.passes(),
        ) by {
            assert(all[i]);
        }
        lemma_excluded::<S>(buffers, map, chain.passes(), mask);
        let slots = rendered(
            decoded_all::<S::Raw>(retained(buffers, mask), map),
            sight::<S>(),
            chain.passes(),
        );
        assert(past(slots, 0) =~= slots);
    }
}

// ---------------------------------------------------------------- columns

/// What is kept of rendered items: those that are seen and pass, and the errors.
proof fn lemma_kept_of_rendered<V, W>(
    items: Seq<Result<V, Error>>,
    seen: spec_fn(V) -> Option<W>,
    passes: spec_fn(V) -> bool,
    test: spec_fn(Result<V, Error>) -> bool,
    view: spec_fn(Result<V, Error>) -> Result<W, Error>,
)
    requires
        forall|item: Result<V, Error>| #[trigger]
            test(item) == (item matches Ok(v) ==> seen(v) is Some && passes(v)),
        forall|item: Result<V, Error>| test(item) ==> #[trigger] view(item) == sighted(item, seen),
    ensures
        kept_of(rendered(items, seen, passes)) == items.filter(test).map_values(view),
    decreases items.len(),
{
    reveal(Seq::filter);
    if items.len() > 0 {
        let (fewer, last) = (items.drop_last(), items.last());
        lemma_kept_of_rendered(fewer, seen, passes, test, view);
        assert(test(last) ==> view(last) == sighted(last, seen));
        let outcomes = rendered(fewer, seen, passes);
        let outcome = rendered_one(last, seen, passes);
        assert(rendered(items, seen, passes) =~= outcomes.push(outcome));
        match outcome {
            Outcome::Include(item) => {
                law_included_items_and_errors_are_kept(outcomes, item, Error::Utf8);
            },
            Outcome::Error(e) => {
                lemma_kept_error(outcomes, e);
            },
            Outcome::Exclude(item) => {
                law_included_items_and_errors_are_kept(outcomes, item, Error::Utf8);
            },
            Outcome::Absent => {
                lemma_kept_sum(outcomes, seq![outcome]);
                assert(outcomes.push(outcome) =~= outcomes + seq![outcome]);
                lemma_kept_none(seq![outcome]);
                assert(kept_of(outcomes) + Seq::<Result<W, Error>>::empty() =~= kept_of(outcomes));
            },
        }
        assert(kept_of(rendered(items, seen, passes)) =~= items.filter(test).map_values(view));
    } else {
        assert(rendered(items, seen, passes) =~= Seq::<Outcome<W>>::empty());
        assert(items.filter(test).map_values(view) =~= Seq::<Result<W, Error>>::empty());
    }
}

/// An error at the end is kept at the end.
proof fn lemma_kept_error<W>(outcomes: Seq<Outcome<W>>, e: Error)
    ensures
        kept_of(outcomes.push(Outcome::Error(e))) == kept_of(outcomes).push(Err(e)),
{
    let one = seq![Outcome::<W>::Error(e)];
    lemma_kept_sum(outcomes, one);
    assert(outcomes.push(Outcome::Error(e)) =~= outcomes + one);
    reveal_with_fuel(kept_of, 2);
    assert(one.skip(1) =~= Seq::<Outcome<W>>::empty());
    assert(kept_of(one) =~= seq![Err::<W, Error>(e)]);
    assert(kept_of(outcomes) + seq![Err::<W, Error>(e)] =~= kept_of(outcomes).push(Err(e)));
}

/// What is seen of a decoded item.
pub open spec fn sighted<V, W>(item: Result<V, Error>, seen: spec_fn(V) -> Option<W>) -> Result<
    W,
    Error,
> {
    match item {
        Ok(v) => Ok(seen(v)->0),
        Err(e) => Err(e),
    }
}

/// A filter of a column keeps its errors and the items whose operand satisfies the predicate, in their order.
pub proof fn law_filtered_columns_keep_what_passes<
    'd,
    I: Decode<'d> + Evaluate<Op>,
    P: Predicate<Op>,
    Op: DeepView,
>(
    chain: Filter<Column<'d, I>, P, Op>,
    slots: Seq<Outcome<I::V>>,
) where I: Item
    requires
        countable(chain.base().list()),
        chain.honest(),
        outcomes(chain) == Ok::<_, Error>(slots),
    ensures
        kept_of(slots) == decoded_all::<I>(chain.base().list(), chain.base().bytes()).filter(
            |item: Result<I::V, Error>|
                item matches Ok(v) ==> (I::operand(v) matches Some(op) && chain.predicate.held().admits(op)),
        ),
{
    let items = decoded_all::<I>(chain.base().list(), chain.base().bytes());
    law_filters_keep_exactly_what_passes(chain);
    let test = |item: Result<I::V, Error>|
        item matches Ok(v) ==> (I::operand(v) matches Some(op) && chain.predicate.held().admits(op));
    let view = |item: Result<I::V, Error>| item;
    lemma_kept_of_rendered(items, sight::<Filter<Column<'d, I>, P, Op>>(), chain.passes(), test, view);
    assert(items.filter(test).map_values(view) =~= items.filter(test));
}

/// A filter of a column with statistics keeps its errors and the items whose operand satisfies the predicate,
/// in their order.
pub proof fn law_pruned_columns_keep_what_passes<
    'd,
    I: Decode<'d> + Evaluate<Op>,
    P: Span<Op>,
    Op: Ordered + Deserialize<'d>,
>(
    chain: Pruned<Column<'d, I>, P, Op>,
    slots: Seq<Outcome<I::V>>,
) where I: Item
    requires
        countable(chain.base().list()),
        chain.honest(),
        outcomes(chain) == Ok::<_, Error>(slots),
    ensures
        kept_of(slots) == decoded_all::<I>(chain.base().list(), chain.base().bytes()).filter(
            |item: Result<I::V, Error>|
                item matches Ok(v) ==> (I::operand(v) matches Some(op) && chain.predicate.held().admits(op)),
        ),
{
    let items = decoded_all::<I>(chain.base().list(), chain.base().bytes());
    law_filters_keep_exactly_what_passes(chain);
    let test = |item: Result<I::V, Error>|
        item matches Ok(v) ==> (I::operand(v) matches Some(op) && chain.predicate.held().admits(op));
    let view = |item: Result<I::V, Error>| item;
    lemma_kept_of_rendered(items, sight::<Pruned<Column<'d, I>, P, Op>>(), chain.passes(), test, view);
    assert(items.filter(test).map_values(view) =~= items.filter(test));
}

/// A semi-join of a column keeps its errors and the items whose operand is one of the keys, in their order.
pub proof fn law_semi_joined_columns_keep_what_is_a_key<
    'd,
    I: Decode<'d> + Evaluate<K::Item>,
    K: Adapter<'d>,
>(
    chain: SemiJoin<Column<'d, I>, K>,
    slots: Seq<Outcome<I::V>>,
    keys: Seq<<K::Item as DeepView>::V>,
) where K::Item: Total + Deserialize<'d>
    requires
        countable(chain.base().list()),
        chain.honest(),
        outcomes(chain) == Ok::<_, Error>(slots),
        included_items(chain.keys) == Ok::<_, Error>(keys),
    ensures
        kept_of(slots) == decoded_all::<I>(chain.base().list(), chain.base().bytes()).filter(
            |item: Result<I::V, Error>|
                item matches Ok(v) ==> (I::operand(v) matches Some(op) && keys.contains(op)),
        ),
{
    let items = decoded_all::<I>(chain.base().list(), chain.base().bytes());
    law_filters_keep_exactly_what_passes(chain);
    let test = |item: Result<I::V, Error>|
        item matches Ok(v) ==> (I::operand(v) matches Some(op) && keys.contains(op));
    let view = |item: Result<I::V, Error>| item;
    lemma_kept_of_rendered(items, sight::<SemiJoin<Column<'d, I>, K>>(), chain.passes(), test, view);
    assert(items.filter(test).map_values(view) =~= items.filter(test));
}

/// An anti-join of a column keeps its errors and the items whose operand is none of the keys, in their order.
pub proof fn law_anti_joined_columns_keep_what_is_no_key<
    'd,
    I: Decode<'d> + Evaluate<K::Item>,
    K: Adapter<'d>,
>(
    chain: AntiJoin<Column<'d, I>, K>,
    slots: Seq<Outcome<I::V>>,
    keys: Seq<<K::Item as DeepView>::V>,
) where K::Item: Total
    requires
        countable(chain.base().list()),
        chain.honest(),
        outcomes(chain) == Ok::<_, Error>(slots),
        included_items(chain.keys) == Ok::<_, Error>(keys),
    ensures
        kept_of(slots) == decoded_all::<I>(chain.base().list(), chain.base().bytes()).filter(
            |item: Result<I::V, Error>|
                item matches Ok(v) ==> (I::operand(v) matches Some(op) && !keys.contains(op)),
        ),
{
    let items = decoded_all::<I>(chain.base().list(), chain.base().bytes());
    law_filters_keep_exactly_what_passes(chain);
    let test = |item: Result<I::V, Error>|
        item matches Ok(v) ==> (I::operand(v) matches Some(op) && !keys.contains(op));
    let view = |item: Result<I::V, Error>| item;
    lemma_kept_of_rendered(items, sight::<AntiJoin<Column<'d, I>, K>>(), chain.passes(), test, view);
    assert(items.filter(test).map_values(view) =~= items.filter(test));
}

/// What a present item carries, or the error.
pub open spec fn carried_by<V>(item: Result<Option<V>, Error>) -> Result<V, Error> {
    match item {
        Ok(v) => Ok(v->0),
        Err(e) => Err(e),
    }
}

/// Presence keeps the errors of a column and what its present items carry, in their order.
pub proof fn law_present_items_are_kept<'d, J: Item>(
    chain: IsSome<Column<'d, Option<J>>>,
    slots: Seq<Outcome<J::V>>,
) where Option<J>: Decode<'d> + DeepView<V = Option<<J as DeepView>::V>>
    requires
        countable(chain.base().list()),
        outcomes(chain) == Ok::<_, Error>(slots),
    ensures
        kept_of(slots) == decoded_all::<Option<J>>(chain.base().list(), chain.base().bytes()).filter(
            |item: Result<Option<J::V>, Error>| item matches Ok(v) ==> v is Some,
        ).map_values(|item: Result<Option<J::V>, Error>| carried_by(item)),
{
    let items = decoded_all::<Option<J>>(chain.base().list(), chain.base().bytes());
    law_filters_keep_exactly_what_passes(chain);
    lemma_kept_of_rendered(
        items,
        sight::<IsSome<Column<'d, Option<J>>>>(),
        chain.passes(),
        |item: Result<Option<J::V>, Error>| item matches Ok(v) ==> v is Some,
        |item: Result<Option<J::V>, Error>| carried_by(item),
    );
}

/// A filter lets pass what its source lets pass and what satisfies its predicate, so that filters in a row
/// are conjunctive, and a column lets every item pass.
pub proof fn law_filters_in_a_row_are_conjunctive<
    'd,
    S: Sieve<'d>,
    P: Span<Op>,
    Op: Ordered + Deserialize<'d>,
    I: Decode<'d>,
>(
    filter: Filter<S, P, Op>,
    pruned: Pruned<S, P, Op>,
    column: Column<'d, I>,
    raw: <S::Raw as DeepView>::V,
    item: I::V,
) where S::Item: Evaluate<Op>
    ensures
        filter.passes()(raw) == (filter.source.passes()(raw) && (S::seen(raw) matches Some(seen)
            && S::Item::operand(seen) matches Some(op) && filter.predicate.held().admits(op))),
        pruned.passes()(raw) == (pruned.source.passes()(raw) && (S::seen(raw) matches Some(seen)
            && S::Item::operand(seen) matches Some(op) && pruned.predicate.held().admits(op))),
        column.passes()(item),
        <Column<'d, I> as Source<'d>>::seen(item) == Some(item),
{
}

/// Statistics can be relied on where each item of a detailed buffer can be decoded and its operand, if it
/// has one, lies between the smallest and the largest. Filters without statistics rely on nothing.
pub proof fn law_statistics_that_bound_their_items_suffice<
    'd,
    I: Decode<'d> + Evaluate<Op>,
    P: Span<Op>,
    Op: Ordered + Deserialize<'d>,
>(filter: Filter<Column<'d, I>, P, Op>, pruned: Pruned<Column<'d, I>, P, Op>)
    requires
        forall|i: int, j: int|
            0 <= i < pruned.base().list().len() && 0 <= j < decoded::<I>(
                pruned.base().list()[i],
                pruned.base().bytes(),
            ).len() && (#[trigger] pruned.base().list()[i]) is Detailed ==> {
                &&& (#[trigger] decoded::<I>(pruned.base().list()[i], pruned.base().bytes())[j]) is Ok
                &&& (statistics::<Op>(
                    pruned.base().list()[i]->min,
                    pruned.base().list()[i]->max,
                    pruned.base().bytes(),
                ) matches Ok((lo, hi)) && I::operand(
                    decoded::<I>(pruned.base().list()[i], pruned.base().bytes())[j]->Ok_0,
                ) matches Some(op)) ==> Op::within(
                    statistics::<Op>(
                        pruned.base().list()[i]->min,
                        pruned.base().list()[i]->max,
                        pruned.base().bytes(),
                    )->Ok_0.0,
                    I::operand(
                        decoded::<I>(pruned.base().list()[i], pruned.base().bytes())[j]->Ok_0,
                    )->0,
                ) && Op::within(
                    I::operand(
                        decoded::<I>(pruned.base().list()[i], pruned.base().bytes())[j]->Ok_0,
                    )->0,
                    statistics::<Op>(
                        pruned.base().list()[i]->min,
                        pruned.base().list()[i]->max,
                        pruned.base().bytes(),
                    )->Ok_0.1,
                )
            },
    ensures
        filter.honest(),
        pruned.honest(),
{
}

} // verus!
