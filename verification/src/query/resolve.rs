//! How a query runs: a chain of adapters first narrows the mask of buffers, and then becomes a chain
//! that decodes and filters the items of the buffers which are left.

use crate::io::error::Error;
use crate::query::mask::{every, within_mask, Mask};
use crate::query::source::{retained, Column, Src};
use crate::query::items::{decoded_all, lifted_all, Items};
use crate::manifest::buffer::Buffer;
use crate::read::decode::Decode;
use crate::read::item::Item;
use crate::read::outcome::Outcome;
use crate::read::stream::{past, Skipped, Stream};
use vstd::prelude::*;

verus! {

/// A chain of adapters over a source.
pub trait Based<'d> {
    /// The source that the chain reads.
    spec fn base(&self) -> Src<'d>;

    /// The source that the chain reads.
    fn src(&self) -> (src: Src<'d>)
        ensures
            src == self.base(),
    ;
}

/// What a chain became when it narrowed a mask.
pub trait Settled<'d>: Based<'d> + Sized {
    /// What the outcomes of the chain depend on.
    type Model;

    /// What the outcomes of the chain depend on.
    spec fn model(&self) -> Self::Model;
}

/// A chain that narrows the mask of buffers.
pub trait Resolve<'d>: Based<'d> + Sized {
    /// What the chain becomes.
    type Ok: Settled<'d>;

    /// The narrowed mask, and what the chain becomes.
    spec fn settled(self, mask: Seq<bool>) -> Result<
        (Seq<bool>, <Self::Ok as Settled<'d>>::Model),
        Error,
    >;

    /// The mask that an error leaves.
    spec fn abandoned(self, mask: Seq<bool>) -> Seq<bool>;

    /// A mask is only ever reduced.
    proof fn subtractive(self, mask: Seq<bool>)
        ensures
            self.settled(mask) matches Ok(left) ==> within_mask(left.0, mask),
    ;

    /// Excludes the buffers that hold no part of the result.
    fn resolve(self, mask: &mut Mask) -> (settled: Result<Self::Ok, Error>)
        ensures
            within_mask(final(mask)@, old(mask)@),
            match settled {
                Ok(chain) => chain.base() == self.base() && self.settled(old(mask)@) == Ok::<
                    (Seq<bool>, <Self::Ok as Settled<'d>>::Model),
                    Error,
                >((final(mask)@, chain.model())),
                Err(e) => final(mask)@ == self.abandoned(old(mask)@) && self.settled(old(mask)@)
                    == Err::<(Seq<bool>, <Self::Ok as Settled<'d>>::Model), Error>(e),
            },
    ;
}

/// A chain that decodes and filters items.
pub trait Chain<'d>: Settled<'d> {
    /// The items that the chain gives.
    type Item: DeepView;

    /// The stream that the chain gives.
    type Stream: Stream<Item = Self::Item>;

    /// The outcomes of the slots in the buffers that `mask` includes.
    spec fn slots(model: Self::Model, mask: Seq<bool>) -> Result<
        Seq<Outcome<<Self::Item as DeepView>::V>>,
        Error,
    >;

    /// How many of those outcomes precede the first one that is asked for.
    spec fn start(model: Self::Model, mask: Seq<bool>) -> nat;

    /// How many outcomes precede the first one that is asked for.
    fn origin(&self, mask: &Mask) -> (n: usize)
        ensures
            n == Self::start(self.model(), mask@),
    ;

    /// Reads the buffers that the mask includes.
    fn stream(self, mask: &Mask) -> (stream: Result<Self::Stream, Error>)
        ensures
            match stream {
                Ok(s) => Self::slots(self.model(), mask@) == Ok::<_, Error>(s.rest()),
                Err(e) => Self::slots(self.model(), mask@) == Err::<
                    Seq<Outcome<<Self::Item as DeepView>::V>>,
                    Error,
                >(e),
            },
    ;
}

/// A source of items of one column.
pub trait Source<'d>: Based<'d> + Sized {
    /// The items that the column holds.
    type Raw: Decode<'d>;

    /// The items that the source gives.
    type Item: Item;

    /// What the source makes of an item of the column, where it does not drop it.
    spec fn seen(raw: <Self::Raw as DeepView>::V) -> Option<<Self::Item as DeepView>::V>;

    /// What the source makes of an item of the column, where it does not drop it.
    fn see(raw: Self::Raw) -> (item: Option<Self::Item>)
        ensures
            match item {
                Some(i) => Self::seen(raw.deep_view()) == Some(i.deep_view()),
                None => Self::seen(raw.deep_view()) is None,
            },
    ;
}

/// A chain over one column that can be read.
pub trait Adapter<'d>: Source<'d> + Resolve<'d> {
    /// What reads the items once the mask is narrowed.
    type Chain: Chain<
        'd,
        Item = <Self as Source<'d>>::Item,
        Model = <<Self as Resolve<'d>>::Ok as Settled<'d>>::Model,
    >;

    /// What reads the items once the mask is narrowed.
    fn chain(settled: Self::Ok) -> (chain: Self::Chain)
        ensures
            chain.model() == settled.model(),
            chain.base() == settled.base(),
    ;
}

/// The outcomes that reading an adapter gives.
pub open spec fn outcomes<'d, A: Adapter<'d>>(adapter: A) -> Result<
    Seq<Outcome<<<A as Source<'d>>::Item as DeepView>::V>>,
    Error,
> {
    match adapter.settled(every(adapter.base().list().len())) {
        Err(e) => Err(e),
        Ok((mask, model)) => match A::Chain::slots(model, mask) {
            Err(e) => Err(e),
            Ok(slots) => Ok(past(slots, A::Chain::start(model, mask))),
        },
    }
}

/// Reads an adapter.
pub fn read<'d, A: Adapter<'d>>(adapter: A) -> (stream: Result<
    Skipped<<A::Chain as Chain<'d>>::Stream>,
    Error,
>)
    ensures
        match stream {
            Ok(s) => outcomes(adapter) == Ok::<_, Error>(s.rest()),
            Err(e) => outcomes(adapter) == Err::<
                Seq<Outcome<<<A as Source<'d>>::Item as DeepView>::V>>,
                Error,
            >(e),
        },
{
    let mut mask: Mask = adapter.src().mask();
    let chain: A::Chain = match adapter.resolve(&mut mask) {
        Ok(settled) => A::chain(settled),
        Err(e) => return Err(e),
    };
    let left: usize = chain.origin(&mask);
    match chain.stream(&mask) {
        Ok(stream) => Ok(Skipped { stream, left }),
        Err(e) => Err(e),
    }
}

// ---------------------------------------------------------------- a column

impl<'d, I> Based<'d> for Column<'d, I> {
    open spec fn base(&self) -> Src<'d> {
        self.src
    }

    fn src(&self) -> (src: Src<'d>) {
        self.src
    }
}

/// What the outcomes of a column depend on.
pub struct ColumnModel {
    /// The buffers of the column.
    pub buffers: Seq<Buffer>,
    /// The bytes that the buffers describe.
    pub map: Seq<u8>,
}

impl<'d, I> Settled<'d> for Column<'d, I> {
    type Model = ColumnModel;

    open spec fn model(&self) -> ColumnModel {
        ColumnModel { buffers: self.src.list(), map: self.src.bytes() }
    }
}

impl<'d, I: Decode<'d>> Resolve<'d> for Column<'d, I> {
    type Ok = Column<'d, I>;

    /// A column excludes nothing.
    open spec fn settled(self, mask: Seq<bool>) -> Result<(Seq<bool>, ColumnModel), Error> {
        Ok((mask, self.model()))
    }

    open spec fn abandoned(self, mask: Seq<bool>) -> Seq<bool> {
        mask
    }

    proof fn subtractive(self, mask: Seq<bool>) {
    }

    fn resolve(self, mask: &mut Mask) -> (settled: Result<Column<'d, I>, Error>) {
        Ok(self)
    }
}

impl<'d, I: Decode<'d>> Chain<'d> for Column<'d, I> {
    type Item = I;

    type Stream = Items<'d, I>;

    open spec fn slots(model: ColumnModel, mask: Seq<bool>) -> Result<Seq<Outcome<I::V>>, Error> {
        Ok(lifted_all(decoded_all::<I>(retained(model.buffers, mask), model.map)))
    }

    open spec fn start(model: ColumnModel, mask: Seq<bool>) -> nat {
        0
    }

    fn origin(&self, mask: &Mask) -> (n: usize) {
        0
    }

    fn stream(self, mask: &Mask) -> (stream: Result<Items<'d, I>, Error>) {
        Ok(Items::new(self.src.retained(mask), self.src.query.mmap))
    }
}

impl<'d, I: Decode<'d>> Source<'d> for Column<'d, I> {
    type Raw = I;

    type Item = I;

    open spec fn seen(raw: I::V) -> Option<I::V> {
        Some(raw)
    }

    fn see(raw: I) -> (item: Option<I>) {
        Some(raw)
    }
}

impl<'d, I: Decode<'d>> Adapter<'d> for Column<'d, I> {
    type Chain = Column<'d, I>;

    fn chain(settled: Column<'d, I>) -> (chain: Column<'d, I>) {
        settled
    }
}

} // verus!
