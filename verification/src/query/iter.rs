//! Chains that read the items of the buffers which a mask includes.

use crate::io::error::Error;
use crate::manifest::buffer::Buffer;
use crate::order::Total;
use crate::query::join::matches_keys;
use crate::query::mask::Mask;
use crate::query::predicate::{listed, Except, Sorted};
use crate::query::resolve::{Based, Chain, Settled};
use crate::query::source::{counted, least, Src};
use crate::read::evaluate::Evaluate;
use crate::read::outcome::Outcome;
use crate::read::stream::{upto, Judged, Limited, Ready, Stream};
use vstd::prelude::*;

verus! {

/// `a + b`, or the largest `usize` where that is smaller.
pub open spec fn saturated(a: nat, b: nat) -> nat {
    least(a + b, usize::MAX as nat)
}

/// `a + b`, or the largest `usize` where that is smaller.
pub fn saturating(a: usize, b: usize) -> (sum: usize)
    ensures
        sum == saturated(a as nat, b as nat),
{
    if a <= usize::MAX - b {
        a + b
    } else {
        usize::MAX
    }
}

// ---------------------------------------------------------------- skipping

/// What the outcomes after a skip depend on.
pub struct SkipModel<M> {
    /// What those of the source depend on.
    pub source: M,
    /// The place of the buffer that holds the first item to retain.
    pub buffer: nat,
    /// The place of that item within the buffer.
    pub origin: nat,
}

/// A chain whose first items are skipped.
pub struct Skip<S> {
    /// The source of the items.
    pub source: S,
    /// The place of the buffer that holds the first item to retain.
    pub buffer: usize,
    /// The place of that item within the buffer.
    pub origin: usize,
}

impl<'d, S: Based<'d>> Based<'d> for Skip<S> {
    open spec fn base(&self) -> Src<'d> {
        self.source.base()
    }

    fn src(&self) -> (src: Src<'d>) {
        self.source.src()
    }
}

impl<'d, S: Settled<'d>> Settled<'d> for Skip<S> {
    type Model = SkipModel<S::Model>;

    open spec fn model(&self) -> Self::Model {
        SkipModel {
            source: self.source.model(),
            buffer: self.buffer as nat,
            origin: self.origin as nat,
        }
    }
}

impl<'d, S: Chain<'d>> Chain<'d> for Skip<S> {
    type Item = S::Item;

    type Stream = S::Stream;

    open spec fn slots(model: Self::Model, mask: Seq<bool>) -> Result<
        Seq<Outcome<<S::Item as DeepView>::V>>,
        Error,
    > {
        S::slots(model.source, mask)
    }

    /// The items to skip lie in one buffer, and are gone where that buffer is excluded.
    open spec fn start(model: Self::Model, mask: Seq<bool>) -> nat {
        saturated(
            S::start(model.source, mask),
            if model.buffer < mask.len() && mask[model.buffer as int] {
                model.origin
            } else {
                0
            },
        )
    }

    fn origin(&self, mask: &Mask) -> (n: usize) {
        let before: usize = self.source.origin(mask);
        let here: usize = if mask.get(self.buffer) {
            self.origin
        } else {
            0
        };
        saturating(before, here)
    }

    fn stream(self, mask: &Mask) -> (stream: Result<S::Stream, Error>) {
        self.source.stream(mask)
    }
}

// ---------------------------------------------------------------- taking

/// What the outcomes of a window depend on.
pub struct TakeModel<M> {
    /// What those of the source depend on.
    pub source: M,
    /// The buffers of the source.
    pub buffers: Seq<Buffer>,
    /// The place of the buffer that holds the last item to retain.
    pub limit: nat,
    /// The number of items to retain of that buffer.
    pub keep: nat,
}

/// A chain that ends after a number of items.
pub struct Take<S> {
    /// The source of the items.
    pub source: S,
    /// The place of the buffer that holds the last item to retain.
    pub limit: usize,
    /// The number of items to retain of that buffer.
    pub keep: usize,
}

/// The number of items in the first `n` buffers, as far as the mask includes them. The first count
/// that is no index is an error.
pub open spec fn summed(buffers: Seq<Buffer>, mask: Seq<bool>, n: nat) -> Result<nat, Error>
    decreases n,
{
    if n == 0 {
        Ok(0)
    } else {
        match summed(buffers, mask, (n - 1) as nat) {
            Err(e) => Err(e),
            Ok(sum) => match counted(buffers[n - 1], mask[n - 1]) {
                Err(e) => Err(e),
                Ok(count) => Ok(saturated(sum, count as nat)),
            },
        }
    }
}

/// The number of items of a window.
pub open spec fn width(buffers: Seq<Buffer>, mask: Seq<bool>, limit: nat, keep: nat) -> Result<
    nat,
    Error,
> {
    match summed(buffers, mask, least(limit, least(buffers.len(), mask.len()))) {
        Err(e) => Err(e),
        Ok(sum) => Ok(
            saturated(
                sum,
                if limit < mask.len() && mask[limit as int] {
                    keep
                } else {
                    0
                },
            ),
        ),
    }
}

/// An error in the first counts is one in more of them.
proof fn lemma_summed_error(buffers: Seq<Buffer>, mask: Seq<bool>, n: nat, m: nat)
    requires
        n <= m,
        summed(buffers, mask, n) is Err,
    ensures
        summed(buffers, mask, m) == summed(buffers, mask, n),
    decreases m,
{
    if n < m {
        lemma_summed_error(buffers, mask, n, (m - 1) as nat);
    }
}

/// Computes the number of items of a window.
fn measure(src: &Src, mask: &Mask, limit: usize, keep: usize) -> (n: Result<usize, Error>)
    ensures
        match n {
            Ok(n) => width(src.list(), mask@, limit as nat, keep as nat) == Ok::<nat, Error>(
                n as nat,
            ),
            Err(e) => width(src.list(), mask@, limit as nat, keep as nat) == Err::<nat, Error>(e),
        },
{
    let mut counts: Vec<Result<usize, Error>> = src.counts(mask);
    let ghost end = least(limit as nat, counts@.len());
    let mut sum: usize = 0;
    let mut i: usize = 0;
    while i < limit && i < counts.len()
        invariant
            i <= end,
            end == least(limit as nat, counts@.len()),
            counts@ == Seq::new(
                least(src.list().len(), mask@.len()),
                |j: int| counted(src.list()[j], mask@[j]),
            ),
            summed(src.list(), mask@, i as nat) == Ok::<nat, Error>(sum as nat),
        decreases limit - i,
    {
        match &counts[i] {
            Ok(count) => {
                sum = saturating(sum, *count);
            },
            Err(_) => {
                proof {
                    lemma_summed_error(src.list(), mask@, i as nat + 1, end);
                }
                return counts.swap_remove(i);
            },
        }
        i += 1;
    }
    let last: usize = if mask.get(limit) {
        keep
    } else {
        0
    };
    Ok(saturating(sum, last))
}

impl<'d, S: Based<'d>> Based<'d> for Take<S> {
    open spec fn base(&self) -> Src<'d> {
        self.source.base()
    }

    fn src(&self) -> (src: Src<'d>) {
        self.source.src()
    }
}

impl<'d, S: Settled<'d>> Settled<'d> for Take<S> {
    type Model = TakeModel<S::Model>;

    open spec fn model(&self) -> Self::Model {
        TakeModel {
            source: self.source.model(),
            buffers: self.source.base().list(),
            limit: self.limit as nat,
            keep: self.keep as nat,
        }
    }
}

impl<'d, S: Chain<'d>> Chain<'d> for Take<S> {
    type Item = S::Item;

    type Stream = Limited<S::Stream>;

    open spec fn slots(model: Self::Model, mask: Seq<bool>) -> Result<
        Seq<Outcome<<S::Item as DeepView>::V>>,
        Error,
    > {
        match width(model.buffers, mask, model.limit, model.keep) {
            Err(e) => Err(e),
            Ok(n) => match S::slots(model.source, mask) {
                Err(e) => Err(e),
                Ok(slots) => Ok(upto(slots, n)),
            },
        }
    }

    open spec fn start(model: Self::Model, mask: Seq<bool>) -> nat {
        S::start(model.source, mask)
    }

    fn origin(&self, mask: &Mask) -> (n: usize) {
        self.source.origin(mask)
    }

    fn stream(self, mask: &Mask) -> (stream: Result<Self::Stream, Error>) {
        let src: Src<'d> = self.source.src();
        let left: usize = match measure(&src, mask, self.limit, self.keep) {
            Ok(n) => n,
            Err(e) => return Err(e),
        };
        match self.source.stream(mask) {
            Ok(stream) => Ok(Limited { stream, left }),
            Err(e) => Err(e),
        }
    }
}

// ---------------------------------------------------------------- joining

/// What the outcomes of a join depend on.
#[verifier::reject_recursive_types(V)]
pub struct JoinModel<M, V> {
    /// What those of the source depend on.
    pub source: M,
    /// The keys.
    pub keys: Set<V>,
}

/// The outcomes after each included item was looked up among the keys.
pub open spec fn joined_all<I: Evaluate<Op>, Op: DeepView>(
    outcomes: Seq<Outcome<I::V>>,
    keys: Set<Op::V>,
    wanted: bool,
) -> Seq<Outcome<I::V>> {
    outcomes.map_values(
        |outcome: Outcome<I::V>|
            outcome.judged(|item: I::V| matches_keys::<I, Op>(item, keys, wanted)),
    )
}

/// A chain that retains the items which are keys.
pub struct SemiJoin<S, I: Total> {
    /// The source of the items.
    pub source: S,
    /// The keys in ascending order.
    pub keys: Ready<Sorted<I>, I>,
}

impl<'d, S: Based<'d>, I: Total> Based<'d> for SemiJoin<S, I> {
    open spec fn base(&self) -> Src<'d> {
        self.source.base()
    }

    fn src(&self) -> (src: Src<'d>) {
        self.source.src()
    }
}

impl<'d, S: Settled<'d>, I: Total> Settled<'d> for SemiJoin<S, I> {
    type Model = JoinModel<S::Model, I::V>;

    open spec fn model(&self) -> Self::Model {
        JoinModel {
            source: self.source.model(),
            keys: Set::new(|item: I::V| listed(self.keys.held().items@, item)),
        }
    }
}

impl<'d, S: Chain<'d>, I: Total> Chain<'d> for SemiJoin<S, I> where S::Item: Evaluate<I> {
    type Item = S::Item;

    type Stream = Judged<S::Stream, Sorted<I>, I>;

    open spec fn slots(model: Self::Model, mask: Seq<bool>) -> Result<
        Seq<Outcome<<S::Item as DeepView>::V>>,
        Error,
    > {
        match S::slots(model.source, mask) {
            Ok(slots) => Ok(joined_all::<S::Item, I>(slots, model.keys, true)),
            Err(e) => Err(e),
        }
    }

    open spec fn start(model: Self::Model, mask: Seq<bool>) -> nat {
        S::start(model.source, mask)
    }

    fn origin(&self, mask: &Mask) -> (n: usize) {
        self.source.origin(mask)
    }

    fn stream(self, mask: &Mask) -> (stream: Result<Self::Stream, Error>) {
        match self.source.stream(mask) {
            Ok(stream) => {
                let judged = Judged { stream, predicate: self.keys };
                assert(judged.rest() =~= joined_all::<S::Item, I>(
                    stream.rest(),
                    self.model().keys,
                    true,
                ));
                Ok(judged)
            },
            Err(e) => Err(e),
        }
    }
}

/// A chain that retains the items which are no keys.
pub struct AntiJoin<S, I: Total> {
    /// The source of the items.
    pub source: S,
    /// The keys in ascending order.
    pub keys: Ready<Except<Sorted<I>>, I>,
}

impl<'d, S: Based<'d>, I: Total> Based<'d> for AntiJoin<S, I> {
    open spec fn base(&self) -> Src<'d> {
        self.source.base()
    }

    fn src(&self) -> (src: Src<'d>) {
        self.source.src()
    }
}

impl<'d, S: Settled<'d>, I: Total> Settled<'d> for AntiJoin<S, I> {
    type Model = JoinModel<S::Model, I::V>;

    open spec fn model(&self) -> Self::Model {
        JoinModel {
            source: self.source.model(),
            keys: Set::new(|item: I::V| listed(self.keys.held().predicate.items@, item)),
        }
    }
}

impl<'d, S: Chain<'d>, I: Total> Chain<'d> for AntiJoin<S, I> where S::Item: Evaluate<I> {
    type Item = S::Item;

    type Stream = Judged<S::Stream, Except<Sorted<I>>, I>;

    open spec fn slots(model: Self::Model, mask: Seq<bool>) -> Result<
        Seq<Outcome<<S::Item as DeepView>::V>>,
        Error,
    > {
        match S::slots(model.source, mask) {
            Ok(slots) => Ok(joined_all::<S::Item, I>(slots, model.keys, false)),
            Err(e) => Err(e),
        }
    }

    open spec fn start(model: Self::Model, mask: Seq<bool>) -> nat {
        S::start(model.source, mask)
    }

    fn origin(&self, mask: &Mask) -> (n: usize) {
        self.source.origin(mask)
    }

    fn stream(self, mask: &Mask) -> (stream: Result<Self::Stream, Error>) {
        match self.source.stream(mask) {
            Ok(stream) => {
                let judged = Judged { stream, predicate: self.keys };
                assert(judged.rest() =~= joined_all::<S::Item, I>(
                    stream.rest(),
                    self.model().keys,
                    false,
                ));
                Ok(judged)
            },
            Err(e) => Err(e),
        }
    }
}

} // verus!
