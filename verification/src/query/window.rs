//! Adapters that select items by their place.

use crate::io::error::Error;
use crate::io::region::{index, to_index};
use crate::manifest::buffer::Buffer;
use crate::query::iter::{self, saturated, saturating, SkipModel, TakeModel};
use crate::query::mask::{within_mask, Mask};
use crate::query::resolve::{Adapter, Based, Chain, Resolve, Settled, Source};
use crate::query::source::{least, Src};
use vstd::prelude::*;

verus! {

// ---------------------------------------------------------------- skipping

/// An adapter that skips the first items.
pub struct Skip<S> {
    /// The source of the items.
    pub source: S,
    /// The number of items to skip.
    pub skip: usize,
}

/// Where a skip of `skip` items ends, looking from the buffer at place `i` on: the mask without the
/// buffers that are skipped whole, the place of the first buffer that is not, and the number of items
/// to skip there.
pub open spec fn skipped(buffers: Seq<Buffer>, mask: Seq<bool>, skip: nat, i: nat) -> Result<
    (Seq<bool>, nat, nat),
    Error,
>
    decreases buffers.len() - i,
{
    if i >= least(buffers.len(), mask.len()) {
        Ok((mask, mask.len(), skip))
    } else if !mask[i as int] {
        skipped(buffers, mask, skip, i + 1)
    } else {
        match index(buffers[i as int].length()) {
            Err(e) => Err(e),
            Ok(count) => if skip >= count {
                skipped(buffers, mask.update(i as int, false), (skip - count) as nat, i + 1)
            } else {
                Ok((mask, i, skip))
            },
        }
    }
}

/// The mask without the buffers that a skip covers whole, up to where it ends or a number of items is no
/// index.
pub open spec fn descended(buffers: Seq<Buffer>, mask: Seq<bool>, skip: nat, i: nat) -> Seq<bool>
    decreases buffers.len() - i,
{
    if i >= least(buffers.len(), mask.len()) {
        mask
    } else if !mask[i as int] {
        descended(buffers, mask, skip, i + 1)
    } else {
        match index(buffers[i as int].length()) {
            Err(_) => mask,
            Ok(count) => if skip >= count {
                descended(buffers, mask.update(i as int, false), (skip - count) as nat, i + 1)
            } else {
                mask
            },
        }
    }
}

/// A skip only excludes.
pub proof fn lemma_skipped(buffers: Seq<Buffer>, mask: Seq<bool>, skip: nat, i: nat)
    ensures
        skipped(buffers, mask, skip, i) matches Ok(s) ==> within_mask(s.0, mask) && s.2 <= skip,
    decreases buffers.len() - i,
{
    if i >= least(buffers.len(), mask.len()) {
    } else if !mask[i as int] {
        lemma_skipped(buffers, mask, skip, i + 1);
    } else {
        match index(buffers[i as int].length()) {
            Err(_) => {},
            Ok(count) => if skip >= count {
                let less = mask.update(i as int, false);
                lemma_skipped(buffers, less, (skip - count) as nat, i + 1);
                if let Ok(s) = skipped(buffers, mask, skip, i) {
                    assert forall|j: int| 0 <= j < mask.len() && #[trigger] s.0[j] implies mask[j] by {
                        assert(less[j]);
                    }
                }
            },
        }
    }
}

/// Excludes the buffers that a skip covers whole.
fn descend(src: &Src, mask: &mut Mask, given: usize) -> (end: Result<(usize, usize), Error>)
    ensures
        within_mask(final(mask)@, old(mask)@),
        match end {
            Ok((buffer, origin)) => skipped(src.list(), old(mask)@, given as nat, 0) == Ok::<
                (Seq<bool>, nat, nat),
                Error,
            >((final(mask)@, buffer as nat, origin as nat)),
            Err(e) => skipped(src.list(), old(mask)@, given as nat, 0) == Err::<
                (Seq<bool>, nat, nat),
                Error,
            >(e) && final(mask)@ == descended(src.list(), old(mask)@, given as nat, 0),
        },
{
    let mut skip: usize = given;
    let ghost all = skipped(src.list(), mask@, skip as nat, 0);
    let mut i: usize = 0;
    while i < src.buffers.len() && i < mask.len()
        invariant
            all == skipped(src.list(), old(mask)@, given as nat, 0),
            within_mask(mask@, old(mask)@),
            i <= least(src.list().len(), mask@.len()),
            skipped(src.list(), mask@, skip as nat, i as nat) == all,
            descended(src.list(), mask@, skip as nat, i as nat) == descended(
                src.list(),
                old(mask)@,
                given as nat,
                0,
            ),
        decreases src.list().len() - i,
    {
        if mask.get(i) {
            match to_index(src.buffers.get(i).count()) {
                Err(e) => {
                    return Err(e);
                },
                Ok(count) => {
                    if skip < count {
                        return Ok((i, skip));
                    }
                    skip -= count;
                    mask.exclude(i);
                },
            }
        }
        i += 1;
    }
    Ok((mask.len(), skip))
}

impl<'d, S: Based<'d>> Based<'d> for Skip<S> {
    open spec fn base(&self) -> Src<'d> {
        self.source.base()
    }

    fn src(&self) -> (src: Src<'d>) {
        self.source.src()
    }
}

impl<'d, S: Resolve<'d>> Resolve<'d> for Skip<S> {
    type Ok = iter::Skip<S::Ok>;

    open spec fn settled(self, mask: Seq<bool>) -> Result<
        (Seq<bool>, SkipModel<<S::Ok as Settled<'d>>::Model>),
        Error,
    > {
        match self.source.settled(mask) {
            Err(e) => Err(e),
            Ok((left, source)) => match skipped(self.base().list(), left, self.skip as nat, 0) {
                Err(e) => Err(e),
                Ok((rest, buffer, origin)) => Ok((rest, SkipModel { source, buffer, origin })),
            },
        }
    }

    open spec fn abandoned(self, mask: Seq<bool>) -> Seq<bool> {
        match self.source.settled(mask) {
            Err(_) => self.source.abandoned(mask),
            Ok((left, _)) => descended(self.base().list(), left, self.skip as nat, 0),
        }
    }

    proof fn subtractive(self, mask: Seq<bool>) {
        self.source.subtractive(mask);
        if let Ok((left, _)) = self.source.settled(mask) {
            lemma_skipped(self.base().list(), left, self.skip as nat, 0);
        }
    }

    fn resolve(self, mask: &mut Mask) -> (settled: Result<Self::Ok, Error>) {
        let source = match self.source.resolve(mask) {
            Ok(source) => source,
            Err(e) => return Err(e),
        };
        let src: Src<'d> = source.src();
        match descend(&src, mask, self.skip) {
            Ok((buffer, origin)) => Ok(iter::Skip { source, buffer, origin }),
            Err(e) => Err(e),
        }
    }
}

impl<'d, S: Source<'d>> Source<'d> for Skip<S> {
    type Raw = S::Raw;

    type Item = S::Item;

    open spec fn seen(raw: <S::Raw as DeepView>::V) -> Option<<S::Item as DeepView>::V> {
        S::seen(raw)
    }

    fn see(raw: S::Raw) -> (item: Option<S::Item>) {
        S::see(raw)
    }
}

impl<'d, S: Adapter<'d>> Adapter<'d> for Skip<S> {
    type Chain = iter::Skip<S::Chain>;

    fn chain(settled: iter::Skip<S::Ok>) -> (chain: iter::Skip<S::Chain>) {
        iter::Skip {
            source: S::chain(settled.source),
            buffer: settled.buffer,
            origin: settled.origin,
        }
    }
}

// ---------------------------------------------------------------- taking

/// An adapter that retains the first items.
pub struct Take<S> {
    /// The source of the items.
    pub source: S,
    /// The number of items to retain.
    pub take: usize,
}

/// Where a window of `take` items ends, looking from the buffer at place `i` on: the place of its last
/// buffer, and the number of items to retain there.
pub open spec fn reached(buffers: Seq<Buffer>, mask: Seq<bool>, take: nat, i: nat) -> Result<
    (nat, nat),
    Error,
>
    decreases buffers.len() - i,
{
    if i >= least(buffers.len(), mask.len()) {
        Ok((mask.len(), take))
    } else if !mask[i as int] {
        reached(buffers, mask, take, i + 1)
    } else {
        match index(buffers[i as int].length()) {
            Err(e) => Err(e),
            Ok(count) => if take > count {
                reached(buffers, mask, (take - count) as nat, i + 1)
            } else {
                Ok((i, take))
            },
        }
    }
}

/// The number of items in the included buffers ahead of place `i`.
pub open spec fn ahead(buffers: Seq<Buffer>, mask: Seq<bool>, i: nat) -> nat
    decreases i,
{
    if i == 0 {
        0
    } else {
        ahead(buffers, mask, (i - 1) as nat) + if i <= buffers.len() && mask[i - 1] {
            buffers[i - 1].length() as nat
        } else {
            0
        }
    }
}

/// The mask without the buffers that begin at or beyond the end of the window, which `reach` items
/// precede. An empty window holds part of no buffer.
pub open spec fn windowed(buffers: Seq<Buffer>, mask: Seq<bool>, take: nat, reach: nat) -> Seq<bool> {
    Seq::new(mask.len(), |i: int| mask[i] && take > 0 && ahead(buffers, mask, i as nat) < reach)
}

/// The mask without the buffers after place `limit`.
pub open spec fn trimmed(mask: Seq<bool>, limit: nat) -> Seq<bool> {
    Seq::new(mask.len(), |i: int| i <= limit && mask[i])
}

/// No fewer items are ahead of a later place, and no more where there are no buffers between.
proof fn lemma_ahead(buffers: Seq<Buffer>, mask: Seq<bool>, i: nat, j: nat)
    requires
        i <= j,
    ensures
        ahead(buffers, mask, i) <= ahead(buffers, mask, j),
        i >= buffers.len() ==> ahead(buffers, mask, i) == ahead(buffers, mask, j),
    decreases j,
{
    if i < j {
        lemma_ahead(buffers, mask, i, (j - 1) as nat);
    }
}

/// The last buffer of a window that is not empty is the last that begins before its end.
proof fn lemma_reached(buffers: Seq<Buffer>, mask: Seq<bool>, take: nat, i: nat, reach: nat)
    requires
        take > 0,
        i <= least(buffers.len(), mask.len()),
        ahead(buffers, mask, i) + take == reach,
        reached(buffers, mask, take, i) is Ok,
    ensures
        forall|j: int|
            0 <= j < mask.len() && mask[j] ==> (#[trigger] ahead(buffers, mask, j as nat) < reach <==> j
                <= reached(buffers, mask, take, i)->Ok_0.0),
    decreases buffers.len() - i,
{
    if i >= least(buffers.len(), mask.len()) {
        assert forall|j: int| 0 <= j < mask.len() && mask[j] implies #[trigger] ahead(
            buffers,
            mask,
            j as nat,
        ) < reach by {
            if j <= i {
                lemma_ahead(buffers, mask, j as nat, i);
            } else {
                lemma_ahead(buffers, mask, i, j as nat);
            }
        }
    } else if !mask[i as int] {
        lemma_reached(buffers, mask, take, i + 1, reach);
    } else {
        let count = buffers[i as int].length() as nat;
        if take > count {
            lemma_reached(buffers, mask, (take - count) as nat, i + 1, reach);
        } else {
            assert forall|j: int| 0 <= j < mask.len() && mask[j] implies (#[trigger] ahead(
                buffers,
                mask,
                j as nat,
            ) < reach <==> j <= i) by {
                if j <= i {
                    lemma_ahead(buffers, mask, j as nat, i);
                } else {
                    lemma_ahead(buffers, mask, i + 1, j as nat);
                }
            }
        }
    }
}

/// What is left of the mask of a window that is not empty.
pub proof fn lemma_windowed(buffers: Seq<Buffer>, mask: Seq<bool>, take: nat, reach: nat)
    requires
        0 < take <= reach,
        reached(buffers, mask, reach, 0) is Ok,
    ensures
        windowed(buffers, mask, take, reach) == trimmed(
            mask,
            reached(buffers, mask, reach, 0)->Ok_0.0,
        ),
{
    lemma_reached(buffers, mask, reach, 0, reach);
    assert(windowed(buffers, mask, take, reach) =~= trimmed(
        mask,
        reached(buffers, mask, reach, 0)->Ok_0.0,
    ));
}

/// Finds where a window ends.
fn reach(src: &Src, mask: &Mask, take: usize) -> (end: Result<(usize, usize), Error>)
    ensures
        match end {
            Ok((limit, keep)) => reached(src.list(), mask@, take as nat, 0) == Ok::<
                (nat, nat),
                Error,
            >((limit as nat, keep as nat)) && limit <= mask@.len(),
            Err(e) => reached(src.list(), mask@, take as nat, 0) == Err::<(nat, nat), Error>(e),
        },
{
    let ghost all = reached(src.list(), mask@, take as nat, 0);
    let mut left: usize = take;
    let mut i: usize = 0;
    while i < src.buffers.len() && i < mask.len()
        invariant
            all == reached(src.list(), mask@, take as nat, 0),
            i <= least(src.list().len(), mask@.len()),
            reached(src.list(), mask@, left as nat, i as nat) == all,
        decreases src.list().len() - i,
    {
        if mask.get(i) {
            match to_index(src.buffers.get(i).count()) {
                Err(e) => {
                    return Err(e);
                },
                Ok(count) => {
                    if left <= count {
                        return Ok((i, left));
                    }
                    left -= count;
                },
            }
        }
        i += 1;
    }
    Ok((mask.len(), left))
}

impl<'d, S: Based<'d>> Based<'d> for Take<S> {
    open spec fn base(&self) -> Src<'d> {
        self.source.base()
    }

    fn src(&self) -> (src: Src<'d>) {
        self.source.src()
    }
}

impl<'d, S: Adapter<'d>> Resolve<'d> for Take<S> {
    type Ok = iter::Take<S::Chain>;

    /// The window starts at the first item that the source asks for.
    open spec fn settled(self, mask: Seq<bool>) -> Result<
        (Seq<bool>, TakeModel<<S::Ok as Settled<'d>>::Model>),
        Error,
    > {
        match self.source.settled(mask) {
            Err(e) => Err(e),
            Ok((left, source)) => {
                let buffers = self.base().list();
                let reach = saturated(self.take as nat, S::Chain::start(source, left));
                match reached(buffers, left, reach, 0) {
                    Err(e) => Err(e),
                    Ok((limit, keep)) => Ok(
                        (
                            windowed(buffers, left, self.take as nat, reach),
                            TakeModel { source, buffers, limit, keep },
                        ),
                    ),
                }
            },
        }
    }

    open spec fn abandoned(self, mask: Seq<bool>) -> Seq<bool> {
        match self.source.settled(mask) {
            Err(_) => self.source.abandoned(mask),
            Ok((left, _)) => left,
        }
    }

    proof fn subtractive(self, mask: Seq<bool>) {
        self.source.subtractive(mask);
    }

    fn resolve(self, mask: &mut Mask) -> (settled: Result<Self::Ok, Error>) {
        let source: S::Chain = match self.source.resolve(mask) {
            Ok(source) => S::chain(source),
            Err(e) => return Err(e),
        };
        let src: Src<'d> = source.src();
        let end: usize = saturating(self.take, source.origin(mask));
        let (limit, keep) = match reach(&src, mask, end) {
            Ok(end) => end,
            Err(e) => return Err(e),
        };
        let ghost left = mask@;
        if self.take == 0 {
            mask.exclude_from(0);
        } else {
            if limit < mask.len() {
                mask.exclude_from(limit + 1);
            }
            proof {
                lemma_windowed(src.list(), left, self.take as nat, end as nat);
                assert(mask@ =~= trimmed(left, limit as nat));
            }
        }
        assert(mask@ =~= windowed(src.list(), left, self.take as nat, end as nat));
        Ok(iter::Take { source, limit, keep })
    }
}

impl<'d, S: Source<'d>> Source<'d> for Take<S> {
    type Raw = S::Raw;

    type Item = S::Item;

    open spec fn seen(raw: <S::Raw as DeepView>::V) -> Option<<S::Item as DeepView>::V> {
        S::seen(raw)
    }

    fn see(raw: S::Raw) -> (item: Option<S::Item>) {
        S::see(raw)
    }
}

impl<'d, S: Adapter<'d>> Adapter<'d> for Take<S> {
    type Chain = iter::Take<S::Chain>;

    fn chain(settled: iter::Take<S::Chain>) -> (chain: iter::Take<S::Chain>) {
        settled
    }
}

} // verus!
