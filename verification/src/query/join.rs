//! Adapters that filter one column by the items of another.

use crate::io::deserialize::Deserialize;
use crate::io::error::Error;
use crate::manifest::buffer::{statistics, Buffer};
use crate::order::{Ordered, Total};
use crate::query::filter::{
    item_verdicts, repeated, sieve_with, span_verdicts, with_item, with_min_max,
};
use crate::query::iter::{self, JoinModel};
use crate::query::mask::Mask;
use crate::query::predicate::{any_between, in_order, listed, Except, Sorted};
use crate::query::resolve::{Adapter, Based, Chain, Resolve, Settled, Source};
use crate::query::source::{lemma_sieved, sieved, Src};
use crate::query::terminal::{included_items, into_btree_set};
use crate::read::evaluate::Evaluate;
use crate::read::stream::Ready;
use vstd::prelude::*;

verus! {

/// Whether the operand of `item` is one of `keys`, or is none of them, as `wanted` says. An item
/// without an operand never is.
pub open spec fn matches_keys<I: Evaluate<Op>, Op: DeepView>(
    item: I::V,
    keys: Set<Op::V>,
    wanted: bool,
) -> bool {
    match I::operand(item) {
        Some(op) => keys.contains(op) == wanted,
        None => false,
    }
}

/// Whether a buffer may hold an item whose operand is one of `keys`.
pub open spec fn key_verdict<'d, S: Source<'d>, Op: Ordered + Deserialize<'d>>(
    buffer: Buffer,
    map: Seq<u8>,
    keys: Set<Op::V>,
) -> Result<bool, Error> where S::Item: Evaluate<Op> {
    match buffer {
        Buffer::Compact { buffer, .. } => match repeated::<S::Raw>(buffer, map) {
            Err(e) => Err(e),
            Ok(raw) => match S::seen(raw) {
                Some(item) => Ok(matches_keys::<S::Item, Op>(item, keys, true)),
                None => Ok(false),
            },
        },
        Buffer::Detailed { min, max, .. } => match statistics::<Op>(min, max, map) {
            Err(e) => Err(e),
            Ok((lo, hi)) => Ok(
                exists|key: Op::V| #[trigger]
                    keys.contains(key) && Op::within(lo, key) && Op::within(key, hi),
            ),
        },
        Buffer::Basic { .. } => Ok(true),
    }
}

/// Whether a buffer may hold an item whose operand is none of `keys`.
pub open spec fn other_verdict<'d, S: Source<'d>, Op: DeepView>(
    buffer: Buffer,
    map: Seq<u8>,
    keys: Set<Op::V>,
) -> Result<bool, Error> where S::Item: Evaluate<Op> {
    match buffer {
        Buffer::Compact { buffer, .. } => match repeated::<S::Raw>(buffer, map) {
            Err(e) => Err(e),
            Ok(raw) => match S::seen(raw) {
                Some(item) => Ok(matches_keys::<S::Item, Op>(item, keys, false)),
                None => Ok(false),
            },
        },
        _ => Ok(true),
    }
}

/// The verdicts on each buffer, by the keys to include.
pub open spec fn key_verdicts<'d, S: Source<'d>, Op: Ordered + Deserialize<'d>>(
    src: Src<'d>,
    keys: Set<Op::V>,
) -> Seq<Result<bool, Error>> where S::Item: Evaluate<Op> {
    Seq::new(
        src.list().len(),
        |i: int| key_verdict::<S, Op>(src.list()[i], src.bytes(), keys),
    )
}

/// The verdicts on each buffer, by the keys to exclude.
pub open spec fn other_verdicts<'d, S: Source<'d>, Op: DeepView>(
    src: Src<'d>,
    keys: Set<Op::V>,
) -> Seq<Result<bool, Error>> where S::Item: Evaluate<Op> {
    Seq::new(
        src.list().len(),
        |i: int| other_verdict::<S, Op>(src.list()[i], src.bytes(), keys),
    )
}

/// The set of `items`.
pub open spec fn set_of<V>(items: Seq<V>) -> Set<V> {
    Set::new(|item: V| items.contains(item))
}

/// An adapter that retains the items whose operand another column holds.
pub struct SemiJoin<S, K> {
    /// The source of the items.
    pub source: S,
    /// The column of the keys to include.
    pub keys: K,
}

/// An adapter that retains the items whose operand another column does not hold.
pub struct AntiJoin<S, K> {
    /// The source of the items.
    pub source: S,
    /// The column of the keys to exclude.
    pub keys: K,
}

/// Collects the keys of a join.
fn drain_keys<'d, K: Adapter<'d>>(keys: K) -> (sorted: Result<Sorted<K::Item>, Error>) where
    K::Item: Total,

    ensures
        match sorted {
            Ok(s) => {
                &&& included_items(keys) is Ok
                &&& in_order(s.items@)
                &&& forall|v: <K::Item as DeepView>::V| #[trigger]
                    listed(s.items@, v) <==> set_of(included_items(keys)->Ok_0).contains(v)
            },
            Err(e) => included_items(keys) == Err::<Seq<<K::Item as DeepView>::V>, Error>(e),
        },
{
    match into_btree_set(keys) {
        Ok(items) => {
            proof {
                assert forall|i: int, j: int| 0 <= i < j < items@.len() implies K::Item::within(
                    (#[trigger] items@[i]).deep_view(),
                    (#[trigger] items@[j]).deep_view(),
                ) by {
                    K::Item::chain(
                        items@[i].deep_view(),
                        items@[j].deep_view(),
                        items@[j].deep_view(),
                    );
                }
            }
            Ok(Sorted { items })
        },
        Err(e) => Err(e),
    }
}

impl<'d, S: Based<'d>, K> Based<'d> for SemiJoin<S, K> {
    open spec fn base(&self) -> Src<'d> {
        self.source.base()
    }

    fn src(&self) -> (src: Src<'d>) {
        self.source.src()
    }
}

impl<'d, S: Adapter<'d>, K: Adapter<'d>> Resolve<'d> for SemiJoin<S, K> where
    S::Item: Evaluate<K::Item>,
    K::Item: Total + Deserialize<'d>,
 {
    type Ok = iter::SemiJoin<S::Ok, K::Item>;

    open spec fn settled(self, mask: Seq<bool>) -> Result<
        (Seq<bool>, JoinModel<<S::Ok as Settled<'d>>::Model, <K::Item as DeepView>::V>),
        Error,
    > {
        match included_items(self.keys) {
            Err(e) => Err(e),
            Ok(items) => match self.source.settled(mask) {
                Err(e) => Err(e),
                Ok((left, source)) => sieve_with(
                    key_verdicts::<S, K::Item>(self.base(), set_of(items)),
                    left,
                    JoinModel { source, keys: set_of(items) },
                ),
            },
        }
    }

    open spec fn abandoned(self, mask: Seq<bool>) -> Seq<bool> {
        match included_items(self.keys) {
            Err(_) => mask,
            Ok(items) => match self.source.settled(mask) {
                Err(_) => self.source.abandoned(mask),
                Ok((left, _)) => sieved(
                    key_verdicts::<S, K::Item>(self.base(), set_of(items)),
                    left,
                    0,
                ).1,
            },
        }
    }

    proof fn subtractive(self, mask: Seq<bool>) {
        self.source.subtractive(mask);
        if let Ok(items) = included_items(self.keys) {
            if let Ok((left, _)) = self.source.settled(mask) {
                lemma_sieved(key_verdicts::<S, K::Item>(self.base(), set_of(items)), left, 0);
            }
        }
    }

    fn resolve(self, mask: &mut Mask) -> (settled: Result<Self::Ok, Error>) {
        let ghost base = self.base();
        let sorted: Sorted<K::Item> = match drain_keys(self.keys) {
            Ok(sorted) => sorted,
            Err(e) => return Err(e),
        };
        let ghost wanted = set_of(included_items(self.keys)->Ok_0);
        let src: Src<'d> = self.source.src();
        let source = match self.source.resolve(mask) {
            Ok(source) => source,
            Err(e) => return Err(e),
        };
        let keys: Ready<Sorted<K::Item>, K::Item> = Ready::new(sorted);
        proof {
            let given = span_verdicts::<S, Sorted<K::Item>, K::Item>(base, keys.held());
            assert forall|i: int| 0 <= i < given.len() implies given[i] == #[trigger] key_verdicts::<
                S,
                K::Item,
            >(base, wanted)[i] by {
                let items = keys.held().items@;
                if let Buffer::Detailed { min, max, .. } = base.list()[i] {
                    if let Ok((lo, hi)) = statistics::<K::Item>(min, max, base.bytes()) {
                        if any_between(items, lo, hi) {
                            let j = choose|j: int|
                                0 <= j < items.len() && K::Item::within(
                                    lo,
                                    (#[trigger] items[j]).deep_view(),
                                ) && K::Item::within(items[j].deep_view(), hi);
                            assert(listed(items, items[j].deep_view()));
                            assert(wanted.contains(items[j].deep_view()));
                        }
                        if exists|key: <K::Item as DeepView>::V| #[trigger]
                            wanted.contains(key) && K::Item::within(lo, key) && K::Item::within(
                                key,
                                hi,
                            ) {
                            let key = choose|key: <K::Item as DeepView>::V| #[trigger]
                                wanted.contains(key) && K::Item::within(lo, key)
                                    && K::Item::within(key, hi);
                            assert(listed(items, key));
                        }
                    }
                }
                if let Buffer::Compact { buffer, .. } = base.list()[i] {
                    if let Ok(raw) = repeated::<S::Raw>(buffer, base.bytes()) {
                        if let Some(item) = S::seen(raw) {
                            if let Some(op) = S::Item::operand(item) {
                                assert(listed(items, op) == wanted.contains(op));
                            }
                        }
                    }
                }
            }
            assert(given =~= key_verdicts::<S, K::Item>(base, wanted));
            lemma_sieved(given, mask@, 0);
        }
        match with_min_max::<S, Sorted<K::Item>, K::Item>(&src, mask, &keys) {
            Ok(_) => {
                let chain = iter::SemiJoin { source, keys };
                assert(chain.model().keys =~= wanted);
                Ok(chain)
            },
            Err(e) => Err(e),
        }
    }
}

impl<'d, S: Source<'d>, K> Source<'d> for SemiJoin<S, K> {
    type Raw = S::Raw;

    type Item = S::Item;

    open spec fn seen(raw: <S::Raw as DeepView>::V) -> Option<<S::Item as DeepView>::V> {
        S::seen(raw)
    }

    fn see(raw: S::Raw) -> (item: Option<S::Item>) {
        S::see(raw)
    }
}

impl<'d, S: Adapter<'d>, K: Adapter<'d>> Adapter<'d> for SemiJoin<S, K> where
    S::Item: Evaluate<K::Item>,
    K::Item: Total + Deserialize<'d>,
 {
    type Chain = iter::SemiJoin<S::Chain, K::Item>;

    fn chain(settled: iter::SemiJoin<S::Ok, K::Item>) -> (chain: iter::SemiJoin<S::Chain, K::Item>) {
        iter::SemiJoin { source: S::chain(settled.source), keys: settled.keys }
    }
}

impl<'d, S: Based<'d>, K> Based<'d> for AntiJoin<S, K> {
    open spec fn base(&self) -> Src<'d> {
        self.source.base()
    }

    fn src(&self) -> (src: Src<'d>) {
        self.source.src()
    }
}

impl<'d, S: Adapter<'d>, K: Adapter<'d>> Resolve<'d> for AntiJoin<S, K> where
    S::Item: Evaluate<K::Item>,
    K::Item: Total,
 {
    type Ok = iter::AntiJoin<S::Ok, K::Item>;

    open spec fn settled(self, mask: Seq<bool>) -> Result<
        (Seq<bool>, JoinModel<<S::Ok as Settled<'d>>::Model, <K::Item as DeepView>::V>),
        Error,
    > {
        match included_items(self.keys) {
            Err(e) => Err(e),
            Ok(items) => match self.source.settled(mask) {
                Err(e) => Err(e),
                Ok((left, source)) => sieve_with(
                    other_verdicts::<S, K::Item>(self.base(), set_of(items)),
                    left,
                    JoinModel { source, keys: set_of(items) },
                ),
            },
        }
    }

    open spec fn abandoned(self, mask: Seq<bool>) -> Seq<bool> {
        match included_items(self.keys) {
            Err(_) => mask,
            Ok(items) => match self.source.settled(mask) {
                Err(_) => self.source.abandoned(mask),
                Ok((left, _)) => sieved(
                    other_verdicts::<S, K::Item>(self.base(), set_of(items)),
                    left,
                    0,
                ).1,
            },
        }
    }

    proof fn subtractive(self, mask: Seq<bool>) {
        self.source.subtractive(mask);
        if let Ok(items) = included_items(self.keys) {
            if let Ok((left, _)) = self.source.settled(mask) {
                lemma_sieved(other_verdicts::<S, K::Item>(self.base(), set_of(items)), left, 0);
            }
        }
    }

    fn resolve(self, mask: &mut Mask) -> (settled: Result<Self::Ok, Error>) {
        let ghost base = self.base();
        let sorted: Sorted<K::Item> = match drain_keys(self.keys) {
            Ok(sorted) => sorted,
            Err(e) => return Err(e),
        };
        let ghost wanted = set_of(included_items(self.keys)->Ok_0);
        let src: Src<'d> = self.source.src();
        let source = match self.source.resolve(mask) {
            Ok(source) => source,
            Err(e) => return Err(e),
        };
        let keys: Ready<Except<Sorted<K::Item>>, K::Item> = Ready::new(Except { predicate: sorted });
        proof {
            let given = item_verdicts::<S, Except<Sorted<K::Item>>, K::Item>(base, keys.held());
            assert forall|i: int| 0 <= i < given.len() implies given[i] == #[trigger] other_verdicts::<
                S,
                K::Item,
            >(base, wanted)[i] by {
                let items = keys.held().predicate.items@;
                if let Buffer::Compact { buffer, .. } = base.list()[i] {
                    if let Ok(raw) = repeated::<S::Raw>(buffer, base.bytes()) {
                        if let Some(item) = S::seen(raw) {
                            if let Some(op) = S::Item::operand(item) {
                                assert(listed(items, op) == wanted.contains(op));
                            }
                        }
                    }
                }
            }
            assert(given =~= other_verdicts::<S, K::Item>(base, wanted));
            lemma_sieved(given, mask@, 0);
        }
        match with_item::<S, Except<Sorted<K::Item>>, K::Item>(&src, mask, &keys) {
            Ok(_) => {
                let chain = iter::AntiJoin { source, keys };
                assert(chain.model().keys =~= wanted);
                Ok(chain)
            },
            Err(e) => Err(e),
        }
    }
}

impl<'d, S: Source<'d>, K> Source<'d> for AntiJoin<S, K> {
    type Raw = S::Raw;

    type Item = S::Item;

    open spec fn seen(raw: <S::Raw as DeepView>::V) -> Option<<S::Item as DeepView>::V> {
        S::seen(raw)
    }

    fn see(raw: S::Raw) -> (item: Option<S::Item>) {
        S::see(raw)
    }
}

impl<'d, S: Adapter<'d>, K: Adapter<'d>> Adapter<'d> for AntiJoin<S, K> where
    S::Item: Evaluate<K::Item>,
    K::Item: Total,
 {
    type Chain = iter::AntiJoin<S::Chain, K::Item>;

    fn chain(settled: iter::AntiJoin<S::Ok, K::Item>) -> (chain: iter::AntiJoin<S::Chain, K::Item>) {
        iter::AntiJoin { source: S::chain(settled.source), keys: settled.keys }
    }
}

// ---------------------------------------------------------------- laws

/// A semi-join and an anti-join by the same keys split the items: one that has an operand passes
/// exactly one of them, and one without passes neither.
pub proof fn law_joins_are_complements<I: Evaluate<Op>, Op: DeepView>(
    item: I::V,
    keys: Set<Op::V>,
)
    ensures
        I::operand(item) is Some ==> matches_keys::<I, Op>(item, keys, true) != matches_keys::<
            I,
            Op,
        >(item, keys, false),
        I::operand(item) is None ==> !matches_keys::<I, Op>(item, keys, true) && !matches_keys::<
            I,
            Op,
        >(item, keys, false),
{
}

} // verus!
