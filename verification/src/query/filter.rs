//! Adapters that test the items of a column.

use crate::bounds::Bounds;
use crate::io::deserialize::Deserialize;
use crate::io::error::Error;
use crate::io::region::Sector;
use crate::manifest::buffer::{resolve_both, statistics, Buffer};
use crate::order::Ordered;
use crate::query::mask::Mask;
use crate::query::predicate::{Candidates, Exact, Hashed, Missing, Present, Sorted, Span};
use crate::query::resolve::{Adapter, Based, Chain, Resolve, Settled, Source};
use crate::query::source::{least, lemma_sieved, sieved, tally, verdicts, Probe, Src};
use crate::read::decode::Decode;
use crate::read::decoder::Decoder;
use crate::read::evaluate::{assess, satisfies, Evaluate, IsOption, Predicate};
use crate::read::item::Item;
use crate::read::outcome::Outcome;
use crate::read::stream::{judged_all, narrowed, Judged, Narrowed, Ready, Stream};
use core::marker::PhantomData;
use vstd::prelude::*;

verus! {

// ---------------------------------------------------------------- testing whole buffers

/// The only item of the source that the sector holds.
pub open spec fn repeated<'d, I: Decode<'d>>(sector: Sector, map: Seq<u8>) -> Result<I::V, Error> {
    match sector.covered(map) {
        Err(e) => Err(e),
        Ok(bytes) => match I::Src::parse(bytes).0 {
            Err(e) => Err(e),
            Ok(src) => I::Src::single(src),
        },
    }
}

/// Decodes the only item of the source that the sector holds.
fn repeat<'d, I: Decode<'d>>(sector: &Sector, map: &'d [u8]) -> (item: Result<I, Error>)
    ensures
        match item {
            Ok(i) => repeated::<I>(*sector, map@) == Ok::<I::V, Error>(i.deep_view()),
            Err(e) => repeated::<I>(*sector, map@) == Err::<I::V, Error>(e),
        },
{
    let mut bytes: &'d [u8] = match sector.slice(map) {
        Ok(bytes) => bytes,
        Err(e) => return Err(e),
    };
    match I::Src::deserialize(&mut bytes) {
        Ok(src) => src.one(),
        Err(e) => Err(e),
    }
}

/// Whether the item of a compact buffer satisfies the predicate.
pub open spec fn compact_verdict<'d, S: Source<'d>, P: Predicate<Op>, Op: DeepView>(
    sector: Sector,
    map: Seq<u8>,
    predicate: P,
) -> Result<bool, Error> where S::Item: Evaluate<Op> {
    match repeated::<S::Raw>(sector, map) {
        Err(e) => Err(e),
        Ok(raw) => match S::seen(raw) {
            Some(item) => Ok(satisfies::<S::Item, Op, P>(item, predicate)),
            None => Ok(false),
        },
    }
}

/// Tests the item of a compact buffer.
fn probe_compact<'d, S: Source<'d>, P: Predicate<Op>, Op: DeepView>(
    sector: &Sector,
    map: &'d [u8],
    predicate: &P,
) -> (verdict: Result<bool, Error>) where S::Item: Evaluate<Op>
    requires
        predicate.ready(),
    ensures
        verdict == compact_verdict::<S, P, Op>(*sector, map@, *predicate),
{
    let raw: S::Raw = match repeat::<S::Raw>(sector, map) {
        Ok(raw) => raw,
        Err(e) => return Err(e),
    };
    match S::see(raw) {
        Some(item) => Ok(assess::<S::Item, Op, P>(&item, predicate)),
        None => Ok(false),
    }
}

/// Whether a buffer may hold an item that satisfies the predicate, as far as the item of a compact
/// buffer decides it.
pub open spec fn item_verdict<'d, S: Source<'d>, P: Predicate<Op>, Op: DeepView>(
    buffer: Buffer,
    map: Seq<u8>,
    predicate: P,
) -> Result<bool, Error> where S::Item: Evaluate<Op> {
    match buffer {
        Buffer::Compact { buffer, .. } => compact_verdict::<S, P, Op>(buffer, map, predicate),
        _ => Ok(true),
    }
}

/// Whether a buffer may hold an item that satisfies the predicate, as far as the item of a compact
/// buffer or the statistics of a detailed one decide it.
pub open spec fn span_verdict<'d, S: Source<'d>, P: Span<Op>, Op: Ordered + Deserialize<'d>>(
    buffer: Buffer,
    map: Seq<u8>,
    predicate: P,
) -> Result<bool, Error> where S::Item: Evaluate<Op> {
    match buffer {
        Buffer::Compact { buffer, .. } => compact_verdict::<S, P, Op>(buffer, map, predicate),
        Buffer::Detailed { min, max, .. } => match statistics::<Op>(min, max, map) {
            Err(e) => Err(e),
            Ok((lo, hi)) => Ok(predicate.spans(lo, hi)),
        },
        Buffer::Basic { .. } => Ok(true),
    }
}

/// Tests buffers by the item of a compact one.
struct WithItem<'p, S, P: Predicate<Op>, Op: DeepView> {
    predicate: &'p Ready<P, Op>,
    source: PhantomData<S>,
}

impl<'d, 'p, S: Source<'d>, P: Predicate<Op>, Op: DeepView> Probe<'d> for WithItem<'p, S, P, Op> where
    S::Item: Evaluate<Op>,
 {
    closed spec fn verdict(&self, buffer: Buffer, map: Seq<u8>) -> Result<bool, Error> {
        item_verdict::<S, P, Op>(buffer, map, self.predicate.held())
    }

    fn probe(&self, buffer: &Buffer, map: &'d [u8]) -> (verdict: Result<bool, Error>) {
        match buffer {
            Buffer::Compact { buffer, .. } => probe_compact::<S, P, Op>(
                buffer,
                map,
                self.predicate.get(),
            ),
            _ => Ok(true),
        }
    }
}

/// Tests buffers by the item of a compact one and by the statistics of a detailed one.
struct WithMinMax<'p, S, P: Predicate<Op>, Op: DeepView> {
    predicate: &'p Ready<P, Op>,
    source: PhantomData<S>,
}

impl<'d, 'p, S: Source<'d>, P: Span<Op>, Op: Ordered + Deserialize<'d>> Probe<'d> for WithMinMax<
    'p,
    S,
    P,
    Op,
> where S::Item: Evaluate<Op> {
    closed spec fn verdict(&self, buffer: Buffer, map: Seq<u8>) -> Result<bool, Error> {
        span_verdict::<S, P, Op>(buffer, map, self.predicate.held())
    }

    fn probe(&self, buffer: &Buffer, map: &'d [u8]) -> (verdict: Result<bool, Error>) {
        match buffer {
            Buffer::Detailed { min, max, .. } => {
                match resolve_both::<Op>(min, max, map) {
                    Ok((lo, hi)) => Ok(self.predicate.get().may_hold(&lo, &hi)),
                    Err(e) => Err(e),
                }
            },
            Buffer::Compact { buffer, .. } => probe_compact::<S, P, Op>(
                buffer,
                map,
                self.predicate.get(),
            ),
            Buffer::Basic { .. } => Ok(true),
        }
    }
}

/// The verdicts on each buffer, by the item of a compact one.
pub open spec fn item_verdicts<'d, S: Source<'d>, P: Predicate<Op>, Op: DeepView>(
    src: Src<'d>,
    predicate: P,
) -> Seq<Result<bool, Error>> where S::Item: Evaluate<Op> {
    Seq::new(
        src.list().len(),
        |i: int| item_verdict::<S, P, Op>(src.list()[i], src.bytes(), predicate),
    )
}

/// The verdicts on each buffer, by the item of a compact one and the statistics of a detailed one.
pub open spec fn span_verdicts<'d, S: Source<'d>, P: Span<Op>, Op: Ordered + Deserialize<'d>>(
    src: Src<'d>,
    predicate: P,
) -> Seq<Result<bool, Error>> where S::Item: Evaluate<Op> {
    Seq::new(
        src.list().len(),
        |i: int| span_verdict::<S, P, Op>(src.list()[i], src.bytes(), predicate),
    )
}

/// Excludes the compact buffers whose item does not satisfy the predicate.
pub fn with_item<'d, S: Source<'d>, P: Predicate<Op>, Op: DeepView>(
    src: &Src<'d>,
    mask: &mut Mask,
    predicate: &Ready<P, Op>,
) -> (left: Result<usize, Error>) where S::Item: Evaluate<Op>
    ensures
        final(mask)@ == sieved(
            item_verdicts::<S, P, Op>(*src, predicate.held()),
            old(mask)@,
            0,
        ).1,
        match sieved(item_verdicts::<S, P, Op>(*src, predicate.held()), old(mask)@, 0).0 {
            Some(e) => left == Err::<usize, Error>(e),
            None => left is Ok && left->Ok_0 == tally(
                final(mask)@,
                least(src.list().len(), old(mask)@.len()),
            ),
        },
{
    let probe: WithItem<S, P, Op> = WithItem { predicate, source: PhantomData };
    assert(verdicts(src.list(), src.bytes(), probe) =~= item_verdicts::<S, P, Op>(
        *src,
        predicate.held(),
    ));
    src.try_exclude(mask, &probe)
}

/// Excludes the compact buffers whose item does not satisfy the predicate, and the detailed buffers
/// whose statistics rule out that an item does.
pub fn with_min_max<'d, S: Source<'d>, P: Span<Op>, Op: Ordered + Deserialize<'d>>(
    src: &Src<'d>,
    mask: &mut Mask,
    predicate: &Ready<P, Op>,
) -> (left: Result<usize, Error>) where S::Item: Evaluate<Op>
    ensures
        final(mask)@ == sieved(
            span_verdicts::<S, P, Op>(*src, predicate.held()),
            old(mask)@,
            0,
        ).1,
        match sieved(span_verdicts::<S, P, Op>(*src, predicate.held()), old(mask)@, 0).0 {
            Some(e) => left == Err::<usize, Error>(e),
            None => left is Ok && left->Ok_0 == tally(
                final(mask)@,
                least(src.list().len(), old(mask)@.len()),
            ),
        },
{
    let probe: WithMinMax<S, P, Op> = WithMinMax { predicate, source: PhantomData };
    assert(verdicts(src.list(), src.bytes(), probe) =~= span_verdicts::<S, P, Op>(
        *src,
        predicate.held(),
    ));
    src.try_exclude(mask, &probe)
}

/// What a sieve settles on: an error in a test ends it.
pub open spec fn sieve_with<M>(
    verdicts: Seq<Result<bool, Error>>,
    mask: Seq<bool>,
    model: M,
) -> Result<(Seq<bool>, M), Error> {
    match sieved(verdicts, mask, 0) {
        (Some(e), _) => Err(e),
        (None, left) => Ok((left, model)),
    }
}

// ---------------------------------------------------------------- filters

/// What the outcomes of a filter depend on.
pub struct FilterModel<M, P> {
    /// What those of the source depend on.
    pub source: M,
    /// The predicate.
    pub predicate: P,
}

/// An adapter that tests each item, and the item of each compact buffer.
pub struct Filter<S, P: Predicate<Op>, Op: DeepView> {
    /// The source of the items.
    pub source: S,
    /// The test.
    pub predicate: Ready<P, Op>,
}

/// An adapter that tests each item, the item of each compact buffer and the statistics of each
/// detailed buffer.
pub struct Pruned<S, P: Predicate<Op>, Op: DeepView> {
    /// The source of the items.
    pub source: S,
    /// The test.
    pub predicate: Ready<P, Op>,
}

/// An adapter that retains the items within a range.
pub type Range<S, I> = Pruned<S, Bounds<I>, I>;

/// An adapter that retains the items that are bit-identical to one.
pub type BitMatch<S, I> = Pruned<S, Exact<I>, I>;

/// An adapter that retains the items that are bit-identical to one of several.
pub type OneOf<S, I> = Pruned<S, Candidates<I>, I>;

/// An adapter that retains the items that equal one of several in order.
pub type OneOfSorted<S, I> = Pruned<S, Sorted<I>, I>;

/// An adapter that retains the items that equal one of several, which are hashed.
pub type OneOfSet<S, I> = Pruned<S, Hashed<I>, I>;

impl<'d, S: Based<'d>, P: Predicate<Op>, Op: DeepView> Based<'d> for Filter<S, P, Op> {
    open spec fn base(&self) -> Src<'d> {
        self.source.base()
    }

    fn src(&self) -> (src: Src<'d>) {
        self.source.src()
    }
}

impl<'d, S: Settled<'d>, P: Predicate<Op>, Op: DeepView> Settled<'d> for Filter<S, P, Op> {
    type Model = FilterModel<S::Model, P>;

    open spec fn model(&self) -> Self::Model {
        FilterModel { source: self.source.model(), predicate: self.predicate.held() }
    }
}

impl<'d, S: Adapter<'d>, P: Predicate<Op>, Op: DeepView> Resolve<'d> for Filter<S, P, Op> where
    S::Item: Evaluate<Op>,
 {
    type Ok = Filter<S::Ok, P, Op>;

    open spec fn settled(self, mask: Seq<bool>) -> Result<
        (Seq<bool>, <Self::Ok as Settled<'d>>::Model),
        Error,
    > {
        match self.source.settled(mask) {
            Err(e) => Err(e),
            Ok((left, source)) => sieve_with(
                item_verdicts::<S, P, Op>(self.base(), self.predicate.held()),
                left,
                FilterModel { source, predicate: self.predicate.held() },
            ),
        }
    }

    open spec fn abandoned(self, mask: Seq<bool>) -> Seq<bool> {
        match self.source.settled(mask) {
            Err(_) => self.source.abandoned(mask),
            Ok((left, _)) => sieved(
                item_verdicts::<S, P, Op>(self.base(), self.predicate.held()),
                left,
                0,
            ).1,
        }
    }

    proof fn subtractive(self, mask: Seq<bool>) {
        self.source.subtractive(mask);
        if let Ok((left, _)) = self.source.settled(mask) {
            lemma_sieved(
                item_verdicts::<S, P, Op>(self.base(), self.predicate.held()),
                left,
                0,
            );
        }
    }

    fn resolve(self, mask: &mut Mask) -> (settled: Result<Self::Ok, Error>) {
        let src: Src<'d> = self.source.src();
        let source = match self.source.resolve(mask) {
            Ok(source) => source,
            Err(e) => return Err(e),
        };
        proof {
            lemma_sieved(
                item_verdicts::<S, P, Op>(self.base(), self.predicate.held()),
                mask@,
                0,
            );
        }
        match with_item::<S, P, Op>(&src, mask, &self.predicate) {
            Ok(_) => Ok(Filter { source, predicate: self.predicate }),
            Err(e) => Err(e),
        }
    }
}

impl<'d, S: Chain<'d>, P: Predicate<Op>, Op: DeepView> Chain<'d> for Filter<S, P, Op> where
    S::Item: Evaluate<Op>,
 {
    type Item = S::Item;

    type Stream = Judged<S::Stream, P, Op>;

    open spec fn slots(model: Self::Model, mask: Seq<bool>) -> Result<
        Seq<Outcome<<S::Item as DeepView>::V>>,
        Error,
    > {
        match S::slots(model.source, mask) {
            Ok(slots) => Ok(judged_all::<S::Item, Op, P>(slots, model.predicate)),
            Err(e) => Err(e),
        }
    }

    open spec fn start(model: Self::Model, mask: Seq<bool>) -> nat {
        S::start(model.source, mask)
    }

    fn origin(&self, mask: &Mask) -> (n: usize) {
        self.source.origin(mask)
    }

    fn stream(self, mask: &Mask) -> (stream: Result<Self::Stream, Error>) {
        match self.source.stream(mask) {
            Ok(stream) => Ok(Judged { stream, predicate: self.predicate }),
            Err(e) => Err(e),
        }
    }
}

impl<'d, S: Source<'d>, P: Predicate<Op>, Op: DeepView> Source<'d> for Filter<S, P, Op> {
    type Raw = S::Raw;

    type Item = S::Item;

    open spec fn seen(raw: <S::Raw as DeepView>::V) -> Option<<S::Item as DeepView>::V> {
        S::seen(raw)
    }

    fn see(raw: S::Raw) -> (item: Option<S::Item>) {
        S::see(raw)
    }
}

impl<'d, S: Adapter<'d>, P: Predicate<Op>, Op: DeepView> Adapter<'d> for Filter<S, P, Op> where
    S::Item: Evaluate<Op>,
 {
    type Chain = Filter<S::Chain, P, Op>;

    fn chain(settled: Filter<S::Ok, P, Op>) -> (chain: Filter<S::Chain, P, Op>) {
        Filter { source: S::chain(settled.source), predicate: settled.predicate }
    }
}

impl<'d, S: Based<'d>, P: Predicate<Op>, Op: DeepView> Based<'d> for Pruned<S, P, Op> {
    open spec fn base(&self) -> Src<'d> {
        self.source.base()
    }

    fn src(&self) -> (src: Src<'d>) {
        self.source.src()
    }
}

impl<'d, S: Settled<'d>, P: Predicate<Op>, Op: DeepView> Settled<'d> for Pruned<S, P, Op> {
    type Model = FilterModel<S::Model, P>;

    open spec fn model(&self) -> Self::Model {
        FilterModel { source: self.source.model(), predicate: self.predicate.held() }
    }
}

impl<'d, S: Adapter<'d>, P: Span<Op>, Op: Ordered + Deserialize<'d>> Resolve<'d> for Pruned<S, P, Op> where
    S::Item: Evaluate<Op>,
 {
    type Ok = Pruned<S::Ok, P, Op>;

    open spec fn settled(self, mask: Seq<bool>) -> Result<
        (Seq<bool>, <Self::Ok as Settled<'d>>::Model),
        Error,
    > {
        match self.source.settled(mask) {
            Err(e) => Err(e),
            Ok((left, source)) => sieve_with(
                span_verdicts::<S, P, Op>(self.base(), self.predicate.held()),
                left,
                FilterModel { source, predicate: self.predicate.held() },
            ),
        }
    }

    open spec fn abandoned(self, mask: Seq<bool>) -> Seq<bool> {
        match self.source.settled(mask) {
            Err(_) => self.source.abandoned(mask),
            Ok((left, _)) => sieved(
                span_verdicts::<S, P, Op>(self.base(), self.predicate.held()),
                left,
                0,
            ).1,
        }
    }

    proof fn subtractive(self, mask: Seq<bool>) {
        self.source.subtractive(mask);
        if let Ok((left, _)) = self.source.settled(mask) {
            lemma_sieved(
                span_verdicts::<S, P, Op>(self.base(), self.predicate.held()),
                left,
                0,
            );
        }
    }

    fn resolve(self, mask: &mut Mask) -> (settled: Result<Self::Ok, Error>) {
        let src: Src<'d> = self.source.src();
        let source = match self.source.resolve(mask) {
            Ok(source) => source,
            Err(e) => return Err(e),
        };
        proof {
            lemma_sieved(
                span_verdicts::<S, P, Op>(self.base(), self.predicate.held()),
                mask@,
                0,
            );
        }
        match with_min_max::<S, P, Op>(&src, mask, &self.predicate) {
            Ok(_) => Ok(Pruned { source, predicate: self.predicate }),
            Err(e) => Err(e),
        }
    }
}

impl<'d, S: Chain<'d>, P: Predicate<Op>, Op: DeepView> Chain<'d> for Pruned<S, P, Op> where
    S::Item: Evaluate<Op>,
 {
    type Item = S::Item;

    type Stream = Judged<S::Stream, P, Op>;

    open spec fn slots(model: Self::Model, mask: Seq<bool>) -> Result<
        Seq<Outcome<<S::Item as DeepView>::V>>,
        Error,
    > {
        match S::slots(model.source, mask) {
            Ok(slots) => Ok(judged_all::<S::Item, Op, P>(slots, model.predicate)),
            Err(e) => Err(e),
        }
    }

    open spec fn start(model: Self::Model, mask: Seq<bool>) -> nat {
        S::start(model.source, mask)
    }

    fn origin(&self, mask: &Mask) -> (n: usize) {
        self.source.origin(mask)
    }

    fn stream(self, mask: &Mask) -> (stream: Result<Self::Stream, Error>) {
        match self.source.stream(mask) {
            Ok(stream) => Ok(Judged { stream, predicate: self.predicate }),
            Err(e) => Err(e),
        }
    }
}

impl<'d, S: Source<'d>, P: Predicate<Op>, Op: DeepView> Source<'d> for Pruned<S, P, Op> {
    type Raw = S::Raw;

    type Item = S::Item;

    open spec fn seen(raw: <S::Raw as DeepView>::V) -> Option<<S::Item as DeepView>::V> {
        S::seen(raw)
    }

    fn see(raw: S::Raw) -> (item: Option<S::Item>) {
        S::see(raw)
    }
}

impl<'d, S: Adapter<'d>, P: Span<Op>, Op: Ordered + Deserialize<'d>> Adapter<'d> for Pruned<S, P, Op> where
    S::Item: Evaluate<Op>,
 {
    type Chain = Pruned<S::Chain, P, Op>;

    fn chain(settled: Pruned<S::Ok, P, Op>) -> (chain: Pruned<S::Chain, P, Op>) {
        Pruned { source: S::chain(settled.source), predicate: settled.predicate }
    }
}

// ---------------------------------------------------------------- presence

/// An adapter that retains absent items.
pub type IsNone<S, I> = Filter<S, Missing, I>;

/// An adapter that retains present items, narrowed to what they carry.
pub struct IsSome<S> {
    /// The source of the items.
    pub source: S,
}

impl<'d, S: Based<'d>> Based<'d> for IsSome<S> {
    open spec fn base(&self) -> Src<'d> {
        self.source.base()
    }

    fn src(&self) -> (src: Src<'d>) {
        self.source.src()
    }
}

impl<'d, S: Settled<'d>> Settled<'d> for IsSome<S> {
    type Model = S::Model;

    open spec fn model(&self) -> S::Model {
        self.source.model()
    }
}

impl<'d, S: Adapter<'d>> Resolve<'d> for IsSome<S> where S::Item: IsOption + Evaluate<S::Item> {
    type Ok = IsSome<S::Ok>;

    open spec fn settled(self, mask: Seq<bool>) -> Result<
        (Seq<bool>, <S::Ok as Settled<'d>>::Model),
        Error,
    > {
        match self.source.settled(mask) {
            Err(e) => Err(e),
            Ok((left, source)) => sieve_with(
                item_verdicts::<S, Present, S::Item>(self.base(), Present),
                left,
                source,
            ),
        }
    }

    open spec fn abandoned(self, mask: Seq<bool>) -> Seq<bool> {
        match self.source.settled(mask) {
            Err(_) => self.source.abandoned(mask),
            Ok((left, _)) => sieved(
                item_verdicts::<S, Present, S::Item>(self.base(), Present),
                left,
                0,
            ).1,
        }
    }

    proof fn subtractive(self, mask: Seq<bool>) {
        self.source.subtractive(mask);
        if let Ok((left, _)) = self.source.settled(mask) {
            lemma_sieved(item_verdicts::<S, Present, S::Item>(self.base(), Present), left, 0);
        }
    }

    fn resolve(self, mask: &mut Mask) -> (settled: Result<Self::Ok, Error>) {
        let src: Src<'d> = self.source.src();
        let source = match self.source.resolve(mask) {
            Ok(source) => source,
            Err(e) => return Err(e),
        };
        proof {
            lemma_sieved(item_verdicts::<S, Present, S::Item>(self.base(), Present), mask@, 0);
        }
        let present: Ready<Present, S::Item> = Ready::new(Present);
        match with_item::<S, Present, S::Item>(&src, mask, &present) {
            Ok(_) => Ok(IsSome { source }),
            Err(e) => Err(e),
        }
    }
}

impl<'d, S: Chain<'d>> Chain<'d> for IsSome<S> where S::Item: IsOption {
    type Item = <S::Item as IsOption>::Item;

    type Stream = Narrowed<S::Stream>;

    open spec fn slots(model: S::Model, mask: Seq<bool>) -> Result<
        Seq<Outcome<<<S::Item as IsOption>::Item as DeepView>::V>>,
        Error,
    > {
        match S::slots(model, mask) {
            Ok(slots) => Ok(
                slots.map_values(
                    |outcome: Outcome<<S::Item as DeepView>::V>| narrowed::<S::Item>(outcome),
                ),
            ),
            Err(e) => Err(e),
        }
    }

    open spec fn start(model: S::Model, mask: Seq<bool>) -> nat {
        S::start(model, mask)
    }

    fn origin(&self, mask: &Mask) -> (n: usize) {
        self.source.origin(mask)
    }

    fn stream(self, mask: &Mask) -> (stream: Result<Self::Stream, Error>) {
        match self.source.stream(mask) {
            Ok(stream) => Ok(Narrowed { stream }),
            Err(e) => Err(e),
        }
    }
}

impl<'d, S: Source<'d>> Source<'d> for IsSome<S> where
    S::Item: IsOption,
    <S::Item as IsOption>::Item: Item,
 {
    type Raw = S::Raw;

    type Item = <S::Item as IsOption>::Item;

    open spec fn seen(raw: <S::Raw as DeepView>::V) -> Option<
        <<S::Item as IsOption>::Item as DeepView>::V,
    > {
        match S::seen(raw) {
            Some(item) => S::Item::carried(item),
            None => None,
        }
    }

    fn see(raw: S::Raw) -> (item: Option<Self::Item>) {
        match S::see(raw) {
            Some(item) => item.item(),
            None => None,
        }
    }
}

impl<'d, S: Adapter<'d>> Adapter<'d> for IsSome<S> where
    S::Item: IsOption + Evaluate<S::Item>,
    <S::Item as IsOption>::Item: Item,
 {
    type Chain = IsSome<S::Chain>;

    fn chain(settled: IsSome<S::Ok>) -> (chain: IsSome<S::Chain>) {
        IsSome { source: S::chain(settled.source) }
    }
}

// ---------------------------------------------------------------- laws

/// Presence splits the items: an included item passes exactly one of the two presence adapters.
pub proof fn law_presence_splits<T: IsOption>(item: T::V)
    ensures
        (narrowed::<T>(Outcome::Include(item)) is Include) != <Missing as Predicate<T>>::admits(
            &Missing,
            item,
        ),
{
}

} // verus!
