//! What windows over chains of filters read.

use crate::io::error::Error;
use crate::io::region::index;
use crate::io::deserialize::Deserialize;
use crate::manifest::buffer::{statistics, Buffer};
use crate::order::Ordered;
use crate::query::filter::{item_verdicts, span_verdicts, Filter, Pruned};
use crate::query::items::{decoded, decoded_all};
use crate::query::iter::{saturated, summed, width};
use crate::query::laws::complete;
use crate::query::mask::every;
use crate::query::predicate::Span;
use crate::query::refine::item_at;
use crate::query::resolve::{outcomes, Based, Chain, Resolve, Source};
use crate::query::relate::tested;
use crate::query::sieve::{
    admitted, also, barren, faithful, lemma_compact, lemma_kept_none, lemma_kept_sum, lemma_tested,
    rendered, sight, Sieve,
};
use crate::query::source::{least, lemma_sieved, retained, sieved};
use crate::query::window::{lemma_windowed, reached, skipped, trimmed, windowed, Skip, Take};
use crate::read::evaluate::{satisfies, Evaluate, Predicate};
use crate::read::outcome::Outcome;
use crate::read::stream::{kept_of, past, upto};
use vstd::prelude::*;

verus! {

/// The slots of the buffers from place `i` on that `mask` includes.
spec fn after<'d, S: Source<'d>>(buffers: Seq<Buffer>, map: Seq<u8>, mask: Seq<bool>, i: nat) -> Seq<
    Result<<S::Raw as DeepView>::V, Error>,
> {
    decoded_all::<S::Raw>(retained(buffers.skip(i as int), mask.skip(i as int)), map)
}

/// The slots of the buffers before place `i` that `mask` includes.
spec fn ahead_of<'d, S: Source<'d>>(buffers: Seq<Buffer>, map: Seq<u8>, mask: Seq<bool>, i: nat) -> Seq<
    Result<<S::Raw as DeepView>::V, Error>,
> {
    decoded_all::<S::Raw>(retained(buffers.take(i as int), mask.take(i as int)), map)
}

/// The slots of several buffers and of one before them.
proof fn lemma_after<'d, S: Source<'d>>(buffers: Seq<Buffer>, map: Seq<u8>, mask: Seq<bool>, i: nat)
    requires
        mask.len() == buffers.len(),
        i < buffers.len(),
    ensures
        after::<S>(buffers, map, mask, i) == (if mask[i as int] {
            decoded::<S::Raw>(buffers[i as int], map) + after::<S>(buffers, map, mask, i + 1)
        } else {
            after::<S>(buffers, map, mask, i + 1)
        }),
{
    let (rest, bits) = (buffers.skip(i as int), mask.skip(i as int));
    assert(rest.skip(1) =~= buffers.skip(i as int + 1));
    assert(bits.skip(1) =~= mask.skip(i as int + 1));
    if mask[i as int] {
        let kept = retained(rest, bits);
        assert(kept.skip(1) =~= retained(rest.skip(1), bits.skip(1)));
    }
}

/// A mask that starts with excluded buffers retains what its rest does.
proof fn lemma_leading(buffers: Seq<Buffer>, mask: Seq<bool>, i: nat)
    requires
        mask.len() == buffers.len(),
        i <= buffers.len(),
        forall|j: int| 0 <= j < i ==> !#[trigger] mask[j],
    ensures
        retained(buffers, mask) == retained(buffers.skip(i as int), mask.skip(i as int)),
    decreases i,
{
    if i == 0 {
        assert(buffers.skip(0) =~= buffers);
        assert(mask.skip(0) =~= mask);
    } else {
        assert forall|j: int| 0 <= j < i - 1 implies !#[trigger] mask.skip(1)[j] by {
            assert(!mask[j + 1]);
        }
        assert(!mask[0]);
        lemma_leading(buffers.skip(1), mask.skip(1), (i - 1) as nat);
        assert(buffers.skip(1).skip(i - 1) =~= buffers.skip(i as int));
        assert(mask.skip(1).skip(i - 1) =~= mask.skip(i as int));
    }
}

/// A mask splits at any place.
proof fn lemma_split<'d, S: Source<'d>>(buffers: Seq<Buffer>, map: Seq<u8>, mask: Seq<bool>, i: nat)
    requires
        mask.len() == buffers.len(),
        i <= buffers.len(),
    ensures
        decoded_all::<S::Raw>(retained(buffers, mask), map) == ahead_of::<S>(buffers, map, mask, i)
            + after::<S>(buffers, map, mask, i),
    decreases i,
{
    let all = decoded_all::<S::Raw>(retained(buffers, mask), map);
    if i == 0 {
        assert(buffers.skip(0) =~= buffers);
        assert(mask.skip(0) =~= mask);
        assert(ahead_of::<S>(buffers, map, mask, 0) + all =~= all);
    } else {
        let (rest, bits) = (buffers.skip(1), mask.skip(1));
        lemma_split::<S>(rest, map, bits, (i - 1) as nat);
        assert(rest.skip(i - 1) =~= buffers.skip(i as int));
        assert(bits.skip(i - 1) =~= mask.skip(i as int));
        let (head, tops) = (buffers.take(i as int), mask.take(i as int));
        assert(head.skip(1) =~= rest.take(i - 1));
        assert(tops.skip(1) =~= bits.take(i - 1));
        if mask[0] {
            assert(retained(buffers, mask).skip(1) =~= retained(rest, bits));
            assert(retained(head, tops).skip(1) =~= retained(head.skip(1), tops.skip(1)));
        }
        assert(all =~= ahead_of::<S>(buffers, map, mask, i) + after::<S>(buffers, map, mask, i));
    }
}

/// One more buffer, where it is included, holds as many more slots as it records.
proof fn lemma_ahead_next<'d, S: Source<'d>>(buffers: Seq<Buffer>, map: Seq<u8>, mask: Seq<bool>, i: nat)
    requires
        mask.len() == buffers.len(),
        i < buffers.len(),
        complete::<S::Raw>(buffers, map),
    ensures
        ahead_of::<S>(buffers, map, mask, i + 1).len() == ahead_of::<S>(buffers, map, mask, i).len()
            + if mask[i as int] {
            buffers[i as int].length() as nat
        } else {
            0
        },
{
    let (head, tops) = (buffers.take(i as int + 1), mask.take(i as int + 1));
    lemma_split::<S>(head, map, tops, i);
    assert(head.take(i as int) =~= buffers.take(i as int));
    assert(tops.take(i as int) =~= mask.take(i as int));
    lemma_after::<S>(head, map, tops, i);
    assert(head.skip(i as int + 1) =~= Seq::<Buffer>::empty());
    assert(after::<S>(head, map, tops, i + 1).len() == 0);
    assert(decoded::<S::Raw>(buffers[i as int], map).len() == buffers[i as int].length());
}

/// Where a skip ends, whatever the mask is.
proof fn lemma_skipped_to<'d, S: Source<'d>>(
    buffers: Seq<Buffer>,
    map: Seq<u8>,
    mask: Seq<bool>,
    skip: nat,
    i: nat,
)
    requires
        complete::<S::Raw>(buffers, map),
        mask.len() == buffers.len(),
        i <= buffers.len(),
        forall|j: int| 0 <= j < i ==> !#[trigger] mask[j],
    ensures
        skipped(buffers, mask, skip, i) matches Ok((left, buffer, origin)) && {
            &&& i <= buffer <= buffers.len()
            &&& left.len() == mask.len()
            &&& origin <= skip
            &&& forall|j: int| 0 <= j < buffer ==> !#[trigger] left[j]
            &&& forall|j: int| buffer <= j < mask.len() ==> #[trigger] left[j] == mask[j]
            &&& buffer < buffers.len() ==> left[buffer as int] && origin
                < buffers[buffer as int].length()
            &&& past(after::<S>(buffers, map, mask, i), skip) == past(
                after::<S>(buffers, map, mask, buffer),
                if buffer < buffers.len() {
                    origin
                } else {
                    0
                },
            )
        },
    decreases buffers.len() - i,
{
    if i >= buffers.len() {
        let none = after::<S>(buffers, map, mask, i);
        assert(buffers.skip(i as int) =~= Seq::<Buffer>::empty());
        assert(none.len() == 0);
        assert(past(none, skip) =~= past(none, 0));
    } else {
        lemma_after::<S>(buffers, map, mask, i);
        if !mask[i as int] {
            lemma_skipped_to::<S>(buffers, map, mask, skip, i + 1);
        } else {
            let count = buffers[i as int].length() as nat;
            assert(index(buffers[i as int].length()) is Ok);
            assert(decoded::<S::Raw>(buffers[i as int], map).len() == count);
            if skip >= count {
                let less = mask.update(i as int, false);
                lemma_skipped_to::<S>(buffers, map, less, (skip - count) as nat, i + 1);
                let (left, buffer, origin) = skipped(buffers, less, (skip - count) as nat, i + 1)->Ok_0;
                assert(less.skip(i as int + 1) =~= mask.skip(i as int + 1));
                assert(less.skip(buffer as int) =~= mask.skip(buffer as int));
                assert(past(after::<S>(buffers, map, mask, i), skip) =~= past(
                    after::<S>(buffers, map, mask, i + 1),
                    (skip - count) as nat,
                ));
            }
        }
    }
}

/// Where a window ends, whatever the mask is.
proof fn lemma_reached_to<'d, S: Source<'d>>(
    buffers: Seq<Buffer>,
    map: Seq<u8>,
    mask: Seq<bool>,
    take: nat,
    i: nat,
)
    requires
        complete::<S::Raw>(buffers, map),
        mask.len() == buffers.len(),
        i <= buffers.len(),
    ensures
        reached(buffers, mask, take, i) matches Ok((limit, keep)) && {
            &&& i <= limit <= buffers.len()
            &&& limit < buffers.len() ==> mask[limit as int] && keep
                <= buffers[limit as int].length()
            &&& ahead_of::<S>(buffers, map, mask, limit).len() + keep == ahead_of::<S>(
                buffers,
                map,
                mask,
                i,
            ).len() + take
        },
    decreases buffers.len() - i,
{
    if i < buffers.len() {
        lemma_ahead_next::<S>(buffers, map, mask, i);
        assert(index(buffers[i as int].length()) is Ok);
        if !mask[i as int] {
            lemma_reached_to::<S>(buffers, map, mask, take, i + 1);
        } else if take > buffers[i as int].length() {
            lemma_reached_to::<S>(
                buffers,
                map,
                mask,
                (take - buffers[i as int].length()) as nat,
                i + 1,
            );
        }
    }
}

/// The number of slots of the first buffers that a mask includes.
proof fn lemma_summed_to<'d, S: Source<'d>>(
    buffers: Seq<Buffer>,
    map: Seq<u8>,
    mask: Seq<bool>,
    cut: Seq<bool>,
    n: nat,
)
    requires
        complete::<S::Raw>(buffers, map),
        n <= buffers.len(),
        mask.len() == buffers.len(),
        cut.len() == buffers.len(),
        forall|j: int| 0 <= j < n ==> #[trigger] cut[j] == mask[j],
    ensures
        summed(buffers, cut, n) == Ok::<nat, Error>(
            least(ahead_of::<S>(buffers, map, mask, n).len(), usize::MAX as nat),
        ),
    decreases n,
{
    if n == 0 {
        assert(buffers.take(0) =~= Seq::<Buffer>::empty());
        assert(ahead_of::<S>(buffers, map, mask, 0).len() == 0);
    } else {
        lemma_summed_to::<S>(buffers, map, mask, cut, (n - 1) as nat);
        lemma_ahead_next::<S>(buffers, map, mask, (n - 1) as nat);
        assert(index(buffers[n - 1].length()) is Ok);
    }
}

/// What a window of `take` slots after the first `origin` of those that a mask includes reads.
proof fn lemma_pane<'d, S: Source<'d>>(
    buffers: Seq<Buffer>,
    map: Seq<u8>,
    mask: Seq<bool>,
    origin: nat,
    take: nat,
)
    requires
        complete::<S::Raw>(buffers, map),
        mask.len() == buffers.len(),
        take <= usize::MAX,
        decoded_all::<S::Raw>(retained(buffers, mask), map).len() <= usize::MAX,
    ensures
        ({
            let reach = saturated(take, origin);
            let all = decoded_all::<S::Raw>(retained(buffers, mask), map);
            reached(buffers, mask, reach, 0) matches Ok((limit, keep)) && {
                let cut = windowed(buffers, mask, take, reach);
                let part = decoded_all::<S::Raw>(retained(buffers, cut), map);
                &&& cut.len() == mask.len()
                &&& take > 0 ==> forall|j: int|
                    0 <= j < mask.len() ==> #[trigger] cut[j] == (j <= limit && mask[j])
                &&& width(buffers, cut, limit, keep) matches Ok(w) && past(upto(part, w), origin)
                    == upto(past(all, origin), take)
            }
        }),
{
    let reach = saturated(take, origin);
    let all = decoded_all::<S::Raw>(retained(buffers, mask), map);
    let n = buffers.len();
    lemma_reached_to::<S>(buffers, map, mask, reach, 0);
    let (limit, keep) = reached(buffers, mask, reach, 0)->Ok_0;
    assert(buffers.take(0) =~= Seq::<Buffer>::empty());
    assert(ahead_of::<S>(buffers, map, mask, 0).len() == 0);
    let cut = windowed(buffers, mask, take, reach);
    let part = decoded_all::<S::Raw>(retained(buffers, cut), map);
    if take == 0 {
        assert forall|j: int| 0 <= j < n implies !#[trigger] cut[j] by {}
        lemma_leading(buffers, cut, n);
        assert(buffers.skip(n as int) =~= Seq::<Buffer>::empty());
        assert(part.len() == 0);
        let m = least(limit, n);
        lemma_summed_to::<S>(buffers, map, cut, cut, m);
        lemma_leading(buffers.take(m as int), cut.take(m as int), m);
        assert(buffers.take(m as int).skip(m as int) =~= Seq::<Buffer>::empty());
        assert(width(buffers, cut, limit, keep) == Ok::<nat, Error>(0));
        assert(past(upto(part, 0), origin) =~= upto(past(all, origin), 0));
    } else {
        lemma_windowed(buffers, mask, take, reach);
        assert(cut == trimmed(mask, limit));
        lemma_summed_to::<S>(buffers, map, mask, cut, least(limit, n));
        lemma_split::<S>(buffers, map, mask, limit);
        let w = width(buffers, cut, limit, keep)->Ok_0;
        if limit < n {
            let end = limit + 1;
            lemma_split::<S>(buffers, map, mask, end);
            lemma_split::<S>(buffers, map, cut, end);
            lemma_ahead_next::<S>(buffers, map, mask, limit);
            assert(cut.take(end as int) =~= mask.take(end as int));
            let (tail, bits) = (buffers.skip(end as int), cut.skip(end as int));
            assert forall|j: int| 0 <= j < tail.len() implies !#[trigger] bits[j] by {
                assert(!cut[end + j]);
            }
            lemma_leading(tail, bits, tail.len());
            assert(tail.skip(tail.len() as int) =~= Seq::<Buffer>::empty());
            assert(after::<S>(buffers, map, cut, end).len() == 0);
            assert(part =~= ahead_of::<S>(buffers, map, mask, end));
            assert(all =~= part + after::<S>(buffers, map, mask, end));
            assert(w == reach);
            assert(w <= part.len());
            assert(past(upto(part, w), origin) =~= upto(past(all, origin), take));
        } else {
            assert(cut =~= mask);
            assert(buffers.take(n as int) =~= buffers);
            assert(mask.take(n as int) =~= mask);
            assert(w == all.len());
            assert(past(upto(part, w), origin) =~= upto(past(all, origin), take));
        }
    }
}

/// What becomes of items commutes with skipping and retaining them.
proof fn lemma_rendered<V, W>(
    items: Seq<Result<V, Error>>,
    seen: spec_fn(V) -> Option<W>,
    passes: spec_fn(V) -> bool,
    n: nat,
)
    ensures
        rendered(past(items, n), seen, passes) == past(rendered(items, seen, passes), n),
        rendered(upto(items, n), seen, passes) == upto(rendered(items, seen, passes), n),
{
    assert(rendered(past(items, n), seen, passes) =~= past(rendered(items, seen, passes), n));
    assert(rendered(upto(items, n), seen, passes) =~= upto(rendered(items, seen, passes), n));
}

/// Whether `chain` can be read and every buffer of its column holds as many items as it records.
pub open spec fn readable<'d, S: Sieve<'d>>(chain: S) -> bool {
    &&& complete::<S::Raw>(chain.base().list(), chain.base().bytes())
    &&& chain.honest()
    &&& outcomes(chain) is Ok
}

/// What a chain of filters settles on, and the outcomes that it gives.
proof fn lemma_readable<'d, S: Sieve<'d>>(chain: S, last: Seq<bool>)
    requires
        readable(chain),
    ensures
        chain.settled(every(chain.base().list().len())) matches Ok((mask, model)) && {
            let (buffers, map) = (chain.base().list(), chain.base().bytes());
            &&& mask.len() == buffers.len()
            &&& S::Chain::start(model, last) == 0
            &&& S::Chain::slots(model, last) == Ok::<_, Error>(
                rendered(
                    decoded_all::<S::Raw>(retained(buffers, last), map),
                    sight::<S>(),
                    chain.passes(),
                ),
            )
            &&& outcomes(chain) == Ok::<_, Error>(
                rendered(
                    decoded_all::<S::Raw>(retained(buffers, mask), map),
                    sight::<S>(),
                    chain.passes(),
                ),
            )
        },
{
    let all = every(chain.base().list().len());
    let (buffers, map) = (chain.base().list(), chain.base().bytes());
    chain.lossless(all, last);
    let (mask, _) = chain.settled(all)->Ok_0;
    chain.lossless(all, mask);
    let slots = rendered(
        decoded_all::<S::Raw>(retained(buffers, mask), map),
        sight::<S>(),
        chain.passes(),
    );
    assert(past(slots, 0) =~= slots);
}

/// Skipping the first `n` outcomes of a column, filtered or not, reads the rest of them.
pub proof fn law_skips_drop_the_first_outcomes<'d, S: Sieve<'d>>(chain: S, n: usize)
    requires
        readable(chain),
    ensures
        outcomes(Skip { source: chain, skip: n }) matches Ok(slots) && slots == (if n
            <= outcomes(chain)->Ok_0.len() {
            outcomes(chain)->Ok_0.skip(n as int)
        } else {
            Seq::empty()
        }),
{
    let (buffers, map) = (chain.base().list(), chain.base().bytes());
    let all = every(buffers.len());
    lemma_readable(chain, all);
    let (mask, model) = chain.settled(all)->Ok_0;
    lemma_skipped_to::<S>(buffers, map, mask, n as nat, 0);
    let (left, buffer, origin) = skipped(buffers, mask, n as nat, 0)->Ok_0;
    lemma_readable(chain, left);
    lemma_leading(buffers, left, buffer);
    assert(left.skip(buffer as int) =~= mask.skip(buffer as int));
    assert(buffers.skip(0) =~= buffers);
    assert(mask.skip(0) =~= mask);
    lemma_rendered(
        decoded_all::<S::Raw>(retained(buffers, mask), map),
        sight::<S>(),
        chain.passes(),
        n as nat,
    );
    lemma_rendered(
        decoded_all::<S::Raw>(retained(buffers, left), map),
        sight::<S>(),
        chain.passes(),
        if buffer < buffers.len() {
            origin
        } else {
            0
        },
    );
}

/// Retaining the first `n` outcomes of a column, filtered or not, reads them and no others.
pub proof fn law_windows_end_after_the_first_outcomes<'d, S: Sieve<'d>>(chain: S, n: usize)
    requires
        readable(chain),
        outcomes(chain)->Ok_0.len() <= usize::MAX,
    ensures
        outcomes(Take { source: chain, take: n }) matches Ok(slots) && slots == (if n
            <= outcomes(chain)->Ok_0.len() {
            outcomes(chain)->Ok_0.take(n as int)
        } else {
            outcomes(chain)->Ok_0
        }),
{
    let (buffers, map) = (chain.base().list(), chain.base().bytes());
    let all = every(buffers.len());
    lemma_readable(chain, all);
    let (mask, model) = chain.settled(all)->Ok_0;
    lemma_readable(chain, mask);
    lemma_pane::<S>(buffers, map, mask, 0, n as nat);
    let (limit, keep) = reached(buffers, mask, n as nat, 0)->Ok_0;
    let cut = windowed(buffers, mask, n as nat, n as nat);
    let w = width(buffers, cut, limit, keep)->Ok_0;
    lemma_readable(chain, cut);
    let whole = decoded_all::<S::Raw>(retained(buffers, mask), map);
    let part = decoded_all::<S::Raw>(retained(buffers, cut), map);
    lemma_rendered(whole, sight::<S>(), chain.passes(), n as nat);
    lemma_rendered(part, sight::<S>(), chain.passes(), w);
    assert(past(whole, 0) =~= whole);
    assert(past(upto(part, w), 0) =~= upto(part, w));
    let slots = upto(rendered(part, sight::<S>(), chain.passes()), w);
    assert(past(slots, 0) =~= slots);
}

/// Skipping outcomes of a column, filtered or not, and then retaining some reads those between.
pub proof fn law_windows_read_what_lies_between<'d, S: Sieve<'d>>(chain: S, skip: usize, take: usize)
    requires
        readable(chain),
        outcomes(chain)->Ok_0.len() <= usize::MAX,
    ensures
        outcomes(Take { source: Skip { source: chain, skip }, take }) matches Ok(slots) && ({
            let all = outcomes(chain)->Ok_0;
            &&& slots.len() == (if skip >= all.len() {
                0
            } else if skip + take <= all.len() {
                take as int
            } else {
                all.len() - skip
            })
            &&& forall|i: int| 0 <= i < slots.len() ==> #[trigger] slots[i] == all[skip + i]
        }),
{
    let (buffers, map) = (chain.base().list(), chain.base().bytes());
    let all = every(buffers.len());
    lemma_readable(chain, all);
    let (mask, model) = chain.settled(all)->Ok_0;
    lemma_skipped_to::<S>(buffers, map, mask, skip as nat, 0);
    let (left, buffer, rest) = skipped(buffers, mask, skip as nat, 0)->Ok_0;
    let origin = if buffer < buffers.len() {
        rest
    } else {
        0
    };
    lemma_readable(chain, left);
    lemma_leading(buffers, left, buffer);
    assert(left.skip(buffer as int) =~= mask.skip(buffer as int));
    assert(buffers.skip(0) =~= buffers);
    assert(mask.skip(0) =~= mask);
    lemma_split::<S>(buffers, map, mask, buffer);
    let whole = decoded_all::<S::Raw>(retained(buffers, mask), map);
    let later = decoded_all::<S::Raw>(retained(buffers, left), map);
    assert(later.len() <= whole.len());
    lemma_pane::<S>(buffers, map, left, origin, take as nat);
    let reach = saturated(take as nat, origin);
    let (limit, keep) = reached(buffers, left, reach, 0)->Ok_0;
    let cut = windowed(buffers, left, take as nat, reach);
    let w = width(buffers, cut, limit, keep)->Ok_0;
    lemma_readable(chain, cut);
    let part = decoded_all::<S::Raw>(retained(buffers, cut), map);
    let seen = sight::<S>();
    lemma_rendered(part, seen, chain.passes(), w);
    lemma_rendered(upto(part, w), seen, chain.passes(), origin);
    lemma_rendered(whole, seen, chain.passes(), skip as nat);
    lemma_rendered(past(whole, skip as nat), seen, chain.passes(), take as nat);
    let slots = upto(rendered(part, seen, chain.passes()), w);
    if take == 0 {
        assert(slots.len() == 0) by {
            assert forall|j: int| 0 <= j < buffers.len() implies !#[trigger] cut[j] by {}
            lemma_leading(buffers, cut, buffers.len());
            assert(buffers.skip(buffers.len() as int) =~= Seq::<Buffer>::empty());
        }
    } else if buffer < buffers.len() && !cut[buffer as int] {
        assert(cut[buffer as int] == (buffer <= limit && left[buffer as int]));
        lemma_reached_to::<S>(buffers, map, left, reach, 0);
        assert(false) by {
            lemma_reached_first::<S>(buffers, map, left, reach, 0, buffer);
        }
    }
}

/// The first included buffer is part of any window.
proof fn lemma_reached_first<'d, S: Source<'d>>(
    buffers: Seq<Buffer>,
    map: Seq<u8>,
    mask: Seq<bool>,
    take: nat,
    i: nat,
    first: nat,
)
    requires
        complete::<S::Raw>(buffers, map),
        mask.len() == buffers.len(),
        i <= first < buffers.len(),
        mask[first as int],
        forall|j: int| 0 <= j < first ==> !#[trigger] mask[j],
    ensures
        reached(buffers, mask, take, i) matches Ok((limit, _)) && first <= limit,
    decreases first - i,
{
    if i < first {
        assert(!mask[i as int]);
        lemma_reached_first::<S>(buffers, map, mask, take, i + 1, first);
    } else {
        lemma_reached_to::<S>(buffers, map, mask, take, i);
    }
}

/// The item at place `n` of a column, filtered or not, is its `n`th outcome: the item where it is
/// included, nothing where it is not or there is none, and the error where it is one.
pub proof fn law_nth_reads_one_outcome<'d, S: Sieve<'d>>(chain: S, n: usize)
    requires
        readable(chain),
        outcomes(chain)->Ok_0.len() <= usize::MAX,
    ensures
        ({
            let all = outcomes(chain)->Ok_0;
            let one = item_at(chain, n);
            if n < all.len() {
                match all[n as int] {
                    Outcome::Include(item) => one == Ok::<_, Error>(Some(item)),
                    Outcome::Error(e) => one == Err::<
                        Option<<<S as Source<'d>>::Item as DeepView>::V>,
                        Error,
                    >(e),
                    _ => one == Ok::<Option<<<S as Source<'d>>::Item as DeepView>::V>, Error>(None),
                }
            } else {
                one == Ok::<Option<<<S as Source<'d>>::Item as DeepView>::V>, Error>(None)
            }
        }),
{
    law_windows_read_what_lies_between(chain, n, 1);
    let all = outcomes(chain)->Ok_0;
    let slots = outcomes(Take { source: Skip { source: chain, skip: n }, take: 1 })->Ok_0;
    reveal_with_fuel(kept_of, 2);
    if n < all.len() {
        assert(slots =~= seq![all[n as int]]);
        assert(slots.skip(1) =~= Seq::<Outcome<<<S as Source<'d>>::Item as DeepView>::V>>::empty());
    } else {
        assert(slots =~= Seq::<Outcome<<<S as Source<'d>>::Item as DeepView>::V>>::empty());
    }
}

// ---------------------------------------------------------------- filters over windows

/// What is kept of decoded items.
spec fn kept_items<'d, S: Source<'d>>(
    items: Seq<Result<<S::Raw as DeepView>::V, Error>>,
    passes: spec_fn(<S::Raw as DeepView>::V) -> bool,
) -> Seq<Result<<S::Item as DeepView>::V, Error>> {
    kept_of(rendered(items, sight::<S>(), passes))
}

/// What is kept of items and of more items.
proof fn lemma_kept_items<'d, S: Source<'d>>(
    a: Seq<Result<<S::Raw as DeepView>::V, Error>>,
    b: Seq<Result<<S::Raw as DeepView>::V, Error>>,
    passes: spec_fn(<S::Raw as DeepView>::V) -> bool,
)
    ensures
        kept_items::<S>(a + b, passes) == kept_items::<S>(a, passes) + kept_items::<S>(b, passes),
{
    let (x, y) = (rendered(a, sight::<S>(), passes), rendered(b, sight::<S>(), passes));
    assert(rendered(a + b, sight::<S>(), passes) =~= x + y);
    lemma_kept_sum(x, y);
}

/// Nothing is kept of the items of a buffer of which none passes, nor of some of them.
proof fn lemma_kept_barren<'d, S: Source<'d>>(
    buffer: Buffer,
    map: Seq<u8>,
    passes: spec_fn(<S::Raw as DeepView>::V) -> bool,
    part: Seq<Result<<S::Raw as DeepView>::V, Error>>,
    from: int,
)
    requires
        barren::<S>(buffer, map, passes),
        0 <= from,
        from + part.len() <= decoded::<S::Raw>(buffer, map).len(),
        forall|i: int|
            0 <= i < part.len() ==> #[trigger] part[i] == decoded::<S::Raw>(buffer, map)[from + i],
    ensures
        kept_items::<S>(part, passes).len() == 0,
{
    let slots = rendered(part, sight::<S>(), passes);
    assert forall|i: int| 0 <= i < slots.len() implies (#[trigger] slots[i]).kept() is None by {
        assert(part[i] == decoded::<S::Raw>(buffer, map)[from + i]);
        assert(decoded::<S::Raw>(buffer, map)[from + i] is Ok);
    }
    lemma_kept_none(slots);
}

/// Whether `fewer` is `mask` without buffers of which no item passes.
spec fn drops_barren<'d, S: Source<'d>>(
    buffers: Seq<Buffer>,
    map: Seq<u8>,
    mask: Seq<bool>,
    fewer: Seq<bool>,
    passes: spec_fn(<S::Raw as DeepView>::V) -> bool,
) -> bool {
    &&& mask.len() == buffers.len()
    &&& fewer.len() == buffers.len()
    &&& forall|j: int| 0 <= j < mask.len() && #[trigger] fewer[j] ==> mask[j]
    &&& forall|j: int|
        0 <= j < mask.len() && mask[j] && !fewer[j] ==> barren::<S>(#[trigger] buffers[j], map, passes)
}

/// Dropping such buffers changes nothing of what is kept of the buffers from a place on.
proof fn lemma_kept_after<'d, S: Source<'d>>(
    buffers: Seq<Buffer>,
    map: Seq<u8>,
    mask: Seq<bool>,
    fewer: Seq<bool>,
    passes: spec_fn(<S::Raw as DeepView>::V) -> bool,
    i: nat,
)
    requires
        drops_barren::<S>(buffers, map, mask, fewer, passes),
        i <= buffers.len(),
    ensures
        kept_items::<S>(after::<S>(buffers, map, fewer, i), passes) == kept_items::<S>(
            after::<S>(buffers, map, mask, i),
            passes,
        ),
    decreases buffers.len() - i,
{
    if i < buffers.len() {
        lemma_kept_after::<S>(buffers, map, mask, fewer, passes, i + 1);
        lemma_after::<S>(buffers, map, mask, i);
        lemma_after::<S>(buffers, map, fewer, i);
        let here = decoded::<S::Raw>(buffers[i as int], map);
        lemma_kept_items::<S>(here, after::<S>(buffers, map, mask, i + 1), passes);
        lemma_kept_items::<S>(here, after::<S>(buffers, map, fewer, i + 1), passes);
        if mask[i as int] && !fewer[i as int] {
            assert(barren::<S>(buffers[i as int], map, passes));
            lemma_kept_barren::<S>(buffers[i as int], map, passes, here, 0);
            let rest = kept_items::<S>(after::<S>(buffers, map, mask, i + 1), passes);
            assert(kept_items::<S>(here, passes) + rest =~= rest);
        }
    } else {
        assert(buffers.skip(i as int) =~= Seq::<Buffer>::empty());
    }
}

/// Dropping such buffers changes nothing of what is kept of the buffers before a place.
proof fn lemma_kept_ahead<'d, S: Source<'d>>(
    buffers: Seq<Buffer>,
    map: Seq<u8>,
    mask: Seq<bool>,
    fewer: Seq<bool>,
    passes: spec_fn(<S::Raw as DeepView>::V) -> bool,
    i: nat,
)
    requires
        drops_barren::<S>(buffers, map, mask, fewer, passes),
        i <= buffers.len(),
    ensures
        kept_items::<S>(ahead_of::<S>(buffers, map, fewer, i), passes) == kept_items::<S>(
            ahead_of::<S>(buffers, map, mask, i),
            passes,
        ),
{
    let (head, x, y) = (buffers.take(i as int), mask.take(i as int), fewer.take(i as int));
    assert forall|j: int| 0 <= j < x.len() && x[j] && !y[j] implies barren::<S>(
        #[trigger] head[j],
        map,
        passes,
    ) by {
        assert(barren::<S>(buffers[j], map, passes));
    }
    assert forall|j: int| 0 <= j < x.len() && #[trigger] y[j] implies x[j] by {
        assert(fewer[j]);
    }
    lemma_kept_after::<S>(head, map, x, y, passes, 0);
    assert(head.skip(0) =~= head);
    assert(x.skip(0) =~= x);
    assert(y.skip(0) =~= y);
}

/// Testing what was rendered is rendering by both tests.
proof fn lemma_tested_rendered<'d, S: Source<'d>>(
    items: Seq<Result<<S::Raw as DeepView>::V, Error>>,
    passes: spec_fn(<S::Raw as DeepView>::V) -> bool,
    test: spec_fn(<S::Item as DeepView>::V) -> bool,
)
    ensures
        rendered(items, sight::<S>(), passes).map_values(
            |outcome: Outcome<<S::Item as DeepView>::V>| tested(outcome, test),
        ) == rendered(items, sight::<S>(), also::<S>(passes, test)),
{
    assert(rendered(items, sight::<S>(), passes).map_values(
        |outcome: Outcome<<S::Item as DeepView>::V>| tested(outcome, test),
    ) =~= rendered(items, sight::<S>(), also::<S>(passes, test)));
}

/// What is kept of the rest of a skip does not change when such buffers are dropped.
proof fn lemma_skip_keeps<'d, S: Source<'d>>(
    buffers: Seq<Buffer>,
    map: Seq<u8>,
    mask: Seq<bool>,
    fewer: Seq<bool>,
    passes: spec_fn(<S::Raw as DeepView>::V) -> bool,
    buffer: nat,
    origin: nat,
)
    requires
        complete::<S::Raw>(buffers, map),
        drops_barren::<S>(buffers, map, mask, fewer, passes),
        buffer <= buffers.len(),
        forall|j: int| 0 <= j < buffer ==> !#[trigger] mask[j],
        buffer < buffers.len() ==> mask[buffer as int] && origin < buffers[buffer as int].length(),
    ensures
        ({
            let start = |bits: Seq<bool>|
                if buffer < bits.len() && bits[buffer as int] {
                    origin
                } else {
                    0
                };
            kept_items::<S>(
                past(decoded_all::<S::Raw>(retained(buffers, fewer), map), start(fewer)),
                passes,
            ) == kept_items::<S>(
                past(decoded_all::<S::Raw>(retained(buffers, mask), map), start(mask)),
                passes,
            )
        }),
{
    assert forall|j: int| 0 <= j < buffer implies !#[trigger] fewer[j] by {
        assert(!mask[j]);
    }
    lemma_leading(buffers, mask, buffer);
    lemma_leading(buffers, fewer, buffer);
    let (all, some) = (
        after::<S>(buffers, map, mask, buffer),
        after::<S>(buffers, map, fewer, buffer),
    );
    if buffer < buffers.len() {
        let b = buffer as int;
        lemma_after::<S>(buffers, map, mask, buffer);
        lemma_after::<S>(buffers, map, fewer, buffer);
        lemma_kept_after::<S>(buffers, map, mask, fewer, passes, buffer + 1);
        let here = decoded::<S::Raw>(buffers[b], map);
        assert(here.len() == buffers[b].length());
        let cut = here.skip(origin as int);
        let (more, less) = (
            after::<S>(buffers, map, mask, buffer + 1),
            after::<S>(buffers, map, fewer, buffer + 1),
        );
        assert(past(all, origin) =~= cut + more);
        lemma_kept_items::<S>(cut, more, passes);
        lemma_kept_items::<S>(cut, less, passes);
        if fewer[b] {
            assert(past(some, origin) =~= cut + less);
        } else {
            assert(past(some, 0) =~= less);
            assert(barren::<S>(buffers[b], map, passes));
            lemma_kept_barren::<S>(buffers[b], map, passes, cut, origin as int);
            let rest = kept_items::<S>(more, passes);
            assert(kept_items::<S>(cut, passes) + rest =~= rest);
        }
    } else {
        assert(buffers.skip(buffer as int) =~= Seq::<Buffer>::empty());
        assert(past(all, 0) =~= all);
        assert(past(some, 0) =~= some);
    }
}

/// What is kept of a window does not change when such buffers are dropped.
proof fn lemma_take_keeps<'d, S: Source<'d>>(
    buffers: Seq<Buffer>,
    map: Seq<u8>,
    mask: Seq<bool>,
    fewer: Seq<bool>,
    passes: spec_fn(<S::Raw as DeepView>::V) -> bool,
    limit: nat,
    keep: nat,
)
    requires
        complete::<S::Raw>(buffers, map),
        drops_barren::<S>(buffers, map, mask, fewer, passes),
        limit <= buffers.len(),
        forall|j: int| limit < j < buffers.len() ==> !#[trigger] mask[j],
        limit < buffers.len() ==> keep <= buffers[limit as int].length(),
        decoded_all::<S::Raw>(retained(buffers, mask), map).len() <= usize::MAX,
    ensures
        ({
            let read = |bits: Seq<bool>| decoded_all::<S::Raw>(retained(buffers, bits), map);
            width(buffers, fewer, limit, keep) matches Ok(less) && (width(
                buffers,
                mask,
                limit,
                keep,
            ) matches Ok(more) && kept_items::<S>(upto(read(fewer), less), passes) == kept_items::<S>(
                upto(read(mask), more),
                passes,
            ))
        }),
{
    lemma_take_reads::<S>(buffers, map, mask, limit, keep);
    assert forall|j: int| limit < j < buffers.len() implies !#[trigger] fewer[j] by {
        assert(!mask[j]);
    }
    lemma_ahead_fewer::<S>(buffers, map, mask, fewer, passes, buffers.len());
    assert(buffers.take(buffers.len() as int) =~= buffers);
    assert(mask.take(buffers.len() as int) =~= mask);
    assert(fewer.take(buffers.len() as int) =~= fewer);
    lemma_take_reads::<S>(buffers, map, fewer, limit, keep);
    lemma_kept_ahead::<S>(buffers, map, mask, fewer, passes, limit);
    let (all, some) = (
        ahead_of::<S>(buffers, map, mask, limit),
        ahead_of::<S>(buffers, map, fewer, limit),
    );
    if limit < buffers.len() {
        let here = decoded::<S::Raw>(buffers[limit as int], map).take(keep as int);
        lemma_kept_items::<S>(all, here, passes);
        lemma_kept_items::<S>(some, here, passes);
        if mask[limit as int] && !fewer[limit as int] {
            assert(barren::<S>(buffers[limit as int], map, passes));
            lemma_kept_barren::<S>(buffers[limit as int], map, passes, here, 0);
            let rest = kept_items::<S>(all, passes);
            assert(rest + kept_items::<S>(here, passes) =~= rest);
        }
    }
}

/// Fewer buffers hold no more slots.
proof fn lemma_ahead_fewer<'d, S: Source<'d>>(
    buffers: Seq<Buffer>,
    map: Seq<u8>,
    mask: Seq<bool>,
    fewer: Seq<bool>,
    passes: spec_fn(<S::Raw as DeepView>::V) -> bool,
    i: nat,
)
    requires
        complete::<S::Raw>(buffers, map),
        drops_barren::<S>(buffers, map, mask, fewer, passes),
        i <= buffers.len(),
    ensures
        ahead_of::<S>(buffers, map, fewer, i).len() <= ahead_of::<S>(buffers, map, mask, i).len(),
    decreases i,
{
    if i > 0 {
        lemma_ahead_fewer::<S>(buffers, map, mask, fewer, passes, (i - 1) as nat);
        lemma_ahead_next::<S>(buffers, map, mask, (i - 1) as nat);
        lemma_ahead_next::<S>(buffers, map, fewer, (i - 1) as nat);
        if fewer[i - 1] {
            assert(mask[i - 1]);
        }
    } else {
        assert(buffers.take(0) =~= Seq::<Buffer>::empty());
    }
}

/// What a window reads: the included buffers before its last one, and the first slots of that.
proof fn lemma_take_reads<'d, S: Source<'d>>(
    buffers: Seq<Buffer>,
    map: Seq<u8>,
    mask: Seq<bool>,
    limit: nat,
    keep: nat,
)
    requires
        complete::<S::Raw>(buffers, map),
        mask.len() == buffers.len(),
        limit <= buffers.len(),
        forall|j: int| limit < j < buffers.len() ==> !#[trigger] mask[j],
        limit < buffers.len() ==> keep <= buffers[limit as int].length(),
        decoded_all::<S::Raw>(retained(buffers, mask), map).len() <= usize::MAX,
    ensures
        width(buffers, mask, limit, keep) matches Ok(w) && upto(
            decoded_all::<S::Raw>(retained(buffers, mask), map),
            w,
        ) == (if limit < buffers.len() && mask[limit as int] {
            ahead_of::<S>(buffers, map, mask, limit) + decoded::<S::Raw>(
                buffers[limit as int],
                map,
            ).take(keep as int)
        } else {
            ahead_of::<S>(buffers, map, mask, limit)
        }),
{
    let n = buffers.len();
    let all = decoded_all::<S::Raw>(retained(buffers, mask), map);
    lemma_split::<S>(buffers, map, mask, limit);
    let ahead = ahead_of::<S>(buffers, map, mask, limit);
    lemma_summed_to::<S>(buffers, map, mask, mask, limit);
    if limit < n {
        lemma_after::<S>(buffers, map, mask, limit);
        let (tail, bits) = (buffers.skip(limit as int + 1), mask.skip(limit as int + 1));
        assert forall|j: int| 0 <= j < tail.len() implies !#[trigger] bits[j] by {
            assert(!mask[limit + 1 + j]);
        }
        lemma_leading(tail, bits, tail.len());
        assert(tail.skip(tail.len() as int) =~= Seq::<Buffer>::empty());
        assert(after::<S>(buffers, map, mask, limit + 1).len() == 0);
        let here = decoded::<S::Raw>(buffers[limit as int], map);
        assert(here.len() == buffers[limit as int].length());
        let w = width(buffers, mask, limit, keep)->Ok_0;
        if mask[limit as int] {
            assert(all =~= ahead + here);
            assert(w == ahead.len() + keep);
            assert(upto(all, w) =~= ahead + here.take(keep as int));
        } else {
            assert(all =~= ahead);
            assert(upto(all, w) =~= ahead);
        }
    } else {
        assert(buffers.skip(n as int) =~= Seq::<Buffer>::empty());
        assert(all =~= ahead);
        let w = width(buffers, mask, limit, keep)->Ok_0;
        assert(upto(all, w) =~= ahead);
    }
}

/// A window reads no more than what it is over.
proof fn lemma_pane_reads_less<'d, S: Source<'d>>(
    buffers: Seq<Buffer>,
    map: Seq<u8>,
    first: Seq<bool>,
    mask: Seq<bool>,
    limit: nat,
)
    requires
        first.len() == buffers.len(),
        mask.len() == buffers.len(),
        limit <= buffers.len(),
        forall|j: int| 0 <= j < first.len() ==> #[trigger] mask[j] == (j <= limit && first[j]),
    ensures
        decoded_all::<S::Raw>(retained(buffers, mask), map).len() <= decoded_all::<S::Raw>(
            retained(buffers, first),
            map,
        ).len(),
{
    let end = least(limit + 1, buffers.len());
    lemma_split::<S>(buffers, map, first, end);
    lemma_split::<S>(buffers, map, mask, end);
    assert(mask.take(end as int) =~= first.take(end as int));
    let (tail, bits) = (buffers.skip(end as int), mask.skip(end as int));
    assert forall|j: int| 0 <= j < tail.len() implies !#[trigger] bits[j] by {
        assert(!mask[end + j]);
    }
    lemma_leading(tail, bits, tail.len());
    assert(tail.skip(tail.len() as int) =~= Seq::<Buffer>::empty());
}

/// What is skipped stays skipped under a filter, whatever buffers it excludes:
/// it keeps of the outcomes of the window exactly those that pass.
pub proof fn law_filters_over_skips_keep_what_passes<
    'd,
    S: Sieve<'d>,
    P: Predicate<Op>, Op: DeepView,
>(
    filter: Filter<Skip<S>, P, Op>,
    before: Seq<Outcome<<S::Item as DeepView>::V>>,
    kept: Seq<Outcome<<S::Item as DeepView>::V>>,
) where S::Item: Evaluate<Op>
    requires
        readable(filter.source.source),
        outcomes(filter.source) == Ok::<_, Error>(before),
        outcomes(filter) == Ok::<_, Error>(kept),
    ensures
        kept_of(kept) == kept_of(
            Seq::new(
                before.len(),
                |i: int|
                    tested(
                        before[i],
                        |item: <S::Item as DeepView>::V|
                            S::Item::operand(item) matches Some(op)
                                && filter.predicate.held().admits(op),
                    ),
            ),
        ),
{
    let chain = filter.source.source;
    let (buffers, map) = (chain.base().list(), chain.base().bytes());
    let predicate = filter.predicate.held();
    let test = admitted::<S::Item, Op, P>(predicate);
    let passes = also::<S>(chain.passes(), test);
    let all = every(buffers.len());
    lemma_readable(chain, all);
    let (first, model) = chain.settled(all)->Ok_0;
    lemma_skipped_to::<S>(buffers, map, first, filter.source.skip as nat, 0);
    let (mask, buffer, origin) = skipped(buffers, first, filter.source.skip as nat, 0)->Ok_0;
    let verdicts = item_verdicts::<Skip<S>, P, Op>(filter.base(), predicate);
    lemma_sieved(verdicts, mask, 0);
    let fewer = sieved(verdicts, mask, 0).1;
    assert forall|j: int| 0 <= j < mask.len() && mask[j] && !fewer[j] implies barren::<S>(
        #[trigger] buffers[j],
        map,
        passes,
    ) by {
        lemma_tested(verdicts, mask, 0, j);
        assert(verdicts[j] == Ok::<bool, Error>(false));
        assert(index(buffers[j].length()) is Ok);
        match buffers[j] {
            Buffer::Compact { .. } => {
                lemma_compact::<S>(buffers[j], map, chain.passes(), test);
            },
            _ => {},
        }
    }
    lemma_readable(chain, mask);
    lemma_readable(chain, fewer);
    let (more, less) = (
        decoded_all::<S::Raw>(retained(buffers, mask), map),
        decoded_all::<S::Raw>(retained(buffers, fewer), map),
    );
    let (o, p) = (
        if buffer < mask.len() && mask[buffer as int] {
            origin
        } else {
            0
        },
        if buffer < fewer.len() && fewer[buffer as int] {
            origin
        } else {
            0
        },
    );
    lemma_skip_keeps::<S>(buffers, map, mask, fewer, passes, buffer, origin);
    let (x, y) = (past(more, o), past(less, p));
    lemma_rendered(more, sight::<S>(), chain.passes(), o);
    lemma_rendered(less, sight::<S>(), passes, p);
    lemma_tested_rendered::<S>(less, chain.passes(), test);
    lemma_tested_rendered::<S>(x, chain.passes(), test);
    let judged = rendered(y, sight::<S>(), passes);
    assert(kept =~= judged);
    let expected = Seq::new(
        before.len(),
        |i: int|
            tested(
                before[i],
                |item: <S::Item as DeepView>::V|
                    S::Item::operand(item) matches Some(op) && filter.predicate.held().admits(op),
            ),
    );
    assert(before =~= rendered(x, sight::<S>(), chain.passes()));
    assert(expected =~= rendered(x, sight::<S>(), passes));
}

/// What is skipped stays skipped under a filter with statistics, whatever buffers it excludes:
/// it keeps of the outcomes of the window exactly those that pass.
pub proof fn law_pruning_filters_over_skips_keep_what_passes<
    'd,
    S: Sieve<'d>,
    P: Span<Op>, Op: Ordered + Deserialize<'d>,
>(
    filter: Pruned<Skip<S>, P, Op>,
    before: Seq<Outcome<<S::Item as DeepView>::V>>,
    kept: Seq<Outcome<<S::Item as DeepView>::V>>,
) where S::Item: Evaluate<Op>
    requires
        readable(filter.source.source),
        faithful::<Skip<S>, Op>(filter.base().list(), filter.base().bytes()),
        outcomes(filter.source) == Ok::<_, Error>(before),
        outcomes(filter) == Ok::<_, Error>(kept),
    ensures
        kept_of(kept) == kept_of(
            Seq::new(
                before.len(),
                |i: int|
                    tested(
                        before[i],
                        |item: <S::Item as DeepView>::V|
                            S::Item::operand(item) matches Some(op)
                                && filter.predicate.held().admits(op),
                    ),
            ),
        ),
{
    let chain = filter.source.source;
    let (buffers, map) = (chain.base().list(), chain.base().bytes());
    let predicate = filter.predicate.held();
    let test = admitted::<S::Item, Op, P>(predicate);
    let passes = also::<S>(chain.passes(), test);
    let all = every(buffers.len());
    lemma_readable(chain, all);
    let (first, model) = chain.settled(all)->Ok_0;
    lemma_skipped_to::<S>(buffers, map, first, filter.source.skip as nat, 0);
    let (mask, buffer, origin) = skipped(buffers, first, filter.source.skip as nat, 0)->Ok_0;
    let verdicts = span_verdicts::<Skip<S>, P, Op>(filter.base(), predicate);
    lemma_sieved(verdicts, mask, 0);
    let fewer = sieved(verdicts, mask, 0).1;
    assert forall|j: int| 0 <= j < mask.len() && mask[j] && !fewer[j] implies barren::<S>(
        #[trigger] buffers[j],
        map,
        passes,
    ) by {
        lemma_tested(verdicts, mask, 0, j);
        assert(verdicts[j] == Ok::<bool, Error>(false));
        assert(index(buffers[j].length()) is Ok);
        match buffers[j] {
            Buffer::Compact { .. } => {
                lemma_compact::<S>(buffers[j], map, chain.passes(), test);
            },
                    Buffer::Detailed { min, max, .. } => {
                        let (lo, hi) = statistics::<Op>(min, max, map)->Ok_0;
                        let items = decoded::<S::Raw>(buffers[j], map);
                        assert forall|k: int| 0 <= k < items.len() implies (#[trigger] items[k]) is Ok && (
                        S::seen(items[k]->Ok_0) is None || !passes(items[k]->Ok_0)) by {
                            assert(items[k] is Ok);
                            if let Some(item) = S::seen(items[k]->Ok_0) {
                                if satisfies::<S::Item, Op, P>(item, predicate) {
                                    predicate.sound(lo, hi, S::Item::operand(item)->0);
                                }
                            }
                        }
                    },
            _ => {},
        }
    }
    lemma_readable(chain, mask);
    lemma_readable(chain, fewer);
    let (more, less) = (
        decoded_all::<S::Raw>(retained(buffers, mask), map),
        decoded_all::<S::Raw>(retained(buffers, fewer), map),
    );
    let (o, p) = (
        if buffer < mask.len() && mask[buffer as int] {
            origin
        } else {
            0
        },
        if buffer < fewer.len() && fewer[buffer as int] {
            origin
        } else {
            0
        },
    );
    lemma_skip_keeps::<S>(buffers, map, mask, fewer, passes, buffer, origin);
    let (x, y) = (past(more, o), past(less, p));
    lemma_rendered(more, sight::<S>(), chain.passes(), o);
    lemma_rendered(less, sight::<S>(), passes, p);
    lemma_tested_rendered::<S>(less, chain.passes(), test);
    lemma_tested_rendered::<S>(x, chain.passes(), test);
    let judged = rendered(y, sight::<S>(), passes);
    assert(kept =~= judged);
    let expected = Seq::new(
        before.len(),
        |i: int|
            tested(
                before[i],
                |item: <S::Item as DeepView>::V|
                    S::Item::operand(item) matches Some(op) && filter.predicate.held().admits(op),
            ),
    );
    assert(before =~= rendered(x, sight::<S>(), chain.passes()));
    assert(expected =~= rendered(x, sight::<S>(), passes));
}

/// What lies past a window stays out under a filter, whatever buffers it excludes:
/// it keeps of the outcomes of the window exactly those that pass.
pub proof fn law_filters_over_windows_keep_what_passes<
    'd,
    S: Sieve<'d>,
    P: Predicate<Op>, Op: DeepView,
>(
    filter: Filter<Take<S>, P, Op>,
    before: Seq<Outcome<<S::Item as DeepView>::V>>,
    kept: Seq<Outcome<<S::Item as DeepView>::V>>,
) where S::Item: Evaluate<Op>
    requires
        readable(filter.source.source),
        outcomes(filter.source.source)->Ok_0.len() <= usize::MAX,
        outcomes(filter.source) == Ok::<_, Error>(before),
        outcomes(filter) == Ok::<_, Error>(kept),
    ensures
        kept_of(kept) == kept_of(
            Seq::new(
                before.len(),
                |i: int|
                    tested(
                        before[i],
                        |item: <S::Item as DeepView>::V|
                            S::Item::operand(item) matches Some(op)
                                && filter.predicate.held().admits(op),
                    ),
            ),
        ),
{
    let chain = filter.source.source;
    let (buffers, map) = (chain.base().list(), chain.base().bytes());
    let predicate = filter.predicate.held();
    let test = admitted::<S::Item, Op, P>(predicate);
    let passes = also::<S>(chain.passes(), test);
    let all = every(buffers.len());
    lemma_readable(chain, all);
    let (first, model) = chain.settled(all)->Ok_0;
    lemma_readable(chain, first);
    lemma_pane::<S>(buffers, map, first, 0, filter.source.take as nat);
    lemma_reached_to::<S>(buffers, map, first, filter.source.take as nat, 0);
    let (limit, keep) = reached(buffers, first, filter.source.take as nat, 0)->Ok_0;
    let mask = windowed(buffers, first, filter.source.take as nat, filter.source.take as nat);
    let verdicts = item_verdicts::<Take<S>, P, Op>(filter.base(), predicate);
    lemma_sieved(verdicts, mask, 0);
    let fewer = sieved(verdicts, mask, 0).1;
    assert forall|j: int| 0 <= j < mask.len() && mask[j] && !fewer[j] implies barren::<S>(
        #[trigger] buffers[j],
        map,
        passes,
    ) by {
        lemma_tested(verdicts, mask, 0, j);
        assert(verdicts[j] == Ok::<bool, Error>(false));
        assert(index(buffers[j].length()) is Ok);
        match buffers[j] {
            Buffer::Compact { .. } => {
                lemma_compact::<S>(buffers[j], map, chain.passes(), test);
            },
            _ => {},
        }
    }
    lemma_readable(chain, mask);
    lemma_readable(chain, fewer);
    let (more, less) = (
        decoded_all::<S::Raw>(retained(buffers, mask), map),
        decoded_all::<S::Raw>(retained(buffers, fewer), map),
    );
    if filter.source.take == 0 {
        assert forall|j: int| 0 <= j < mask.len() implies !#[trigger] mask[j] by {}
        assert forall|j: int| 0 <= j < mask.len() implies !#[trigger] fewer[j] by {
            assert(!mask[j]);
        }
        assert(fewer =~= mask);
    } else {
        lemma_split::<S>(buffers, map, first, least(limit + 1, buffers.len()));
        lemma_pane_reads_less::<S>(buffers, map, first, mask, limit);
        lemma_take_keeps::<S>(buffers, map, mask, fewer, passes, limit, keep);
    }
    let (v, w) = (
        width(buffers, mask, limit, keep)->Ok_0,
        width(buffers, fewer, limit, keep)->Ok_0,
    );
    let (x, y) = (upto(more, v), upto(less, w));
    lemma_rendered(more, sight::<S>(), chain.passes(), v);
    lemma_rendered(less, sight::<S>(), chain.passes(), w);
    lemma_tested_rendered::<S>(y, chain.passes(), test);
    lemma_tested_rendered::<S>(x, chain.passes(), test);
    assert(past(rendered(x, sight::<S>(), chain.passes()), 0) =~= rendered(
        x,
        sight::<S>(),
        chain.passes(),
    ));
    let judged = rendered(y, sight::<S>(), passes);
    assert(kept =~= judged);
    let expected = Seq::new(
        before.len(),
        |i: int|
            tested(
                before[i],
                |item: <S::Item as DeepView>::V|
                    S::Item::operand(item) matches Some(op) && filter.predicate.held().admits(op),
            ),
    );
    assert(before =~= rendered(x, sight::<S>(), chain.passes()));
    assert(expected =~= rendered(x, sight::<S>(), passes));
}

/// What lies past a window stays out under a filter with statistics, whatever buffers it excludes:
/// it keeps of the outcomes of the window exactly those that pass.
pub proof fn law_pruning_filters_over_windows_keep_what_passes<
    'd,
    S: Sieve<'d>,
    P: Span<Op>, Op: Ordered + Deserialize<'d>,
>(
    filter: Pruned<Take<S>, P, Op>,
    before: Seq<Outcome<<S::Item as DeepView>::V>>,
    kept: Seq<Outcome<<S::Item as DeepView>::V>>,
) where S::Item: Evaluate<Op>
    requires
        readable(filter.source.source),
        outcomes(filter.source.source)->Ok_0.len() <= usize::MAX,
        faithful::<Take<S>, Op>(filter.base().list(), filter.base().bytes()),
        outcomes(filter.source) == Ok::<_, Error>(before),
        outcomes(filter) == Ok::<_, Error>(kept),
    ensures
        kept_of(kept) == kept_of(
            Seq::new(
                before.len(),
                |i: int|
                    tested(
                        before[i],
                        |item: <S::Item as DeepView>::V|
                            S::Item::operand(item) matches Some(op)
                                && filter.predicate.held().admits(op),
                    ),
            ),
        ),
{
    let chain = filter.source.source;
    let (buffers, map) = (chain.base().list(), chain.base().bytes());
    let predicate = filter.predicate.held();
    let test = admitted::<S::Item, Op, P>(predicate);
    let passes = also::<S>(chain.passes(), test);
    let all = every(buffers.len());
    lemma_readable(chain, all);
    let (first, model) = chain.settled(all)->Ok_0;
    lemma_readable(chain, first);
    lemma_pane::<S>(buffers, map, first, 0, filter.source.take as nat);
    lemma_reached_to::<S>(buffers, map, first, filter.source.take as nat, 0);
    let (limit, keep) = reached(buffers, first, filter.source.take as nat, 0)->Ok_0;
    let mask = windowed(buffers, first, filter.source.take as nat, filter.source.take as nat);
    let verdicts = span_verdicts::<Take<S>, P, Op>(filter.base(), predicate);
    lemma_sieved(verdicts, mask, 0);
    let fewer = sieved(verdicts, mask, 0).1;
    assert forall|j: int| 0 <= j < mask.len() && mask[j] && !fewer[j] implies barren::<S>(
        #[trigger] buffers[j],
        map,
        passes,
    ) by {
        lemma_tested(verdicts, mask, 0, j);
        assert(verdicts[j] == Ok::<bool, Error>(false));
        assert(index(buffers[j].length()) is Ok);
        match buffers[j] {
            Buffer::Compact { .. } => {
                lemma_compact::<S>(buffers[j], map, chain.passes(), test);
            },
                    Buffer::Detailed { min, max, .. } => {
                        let (lo, hi) = statistics::<Op>(min, max, map)->Ok_0;
                        let items = decoded::<S::Raw>(buffers[j], map);
                        assert forall|k: int| 0 <= k < items.len() implies (#[trigger] items[k]) is Ok && (
                        S::seen(items[k]->Ok_0) is None || !passes(items[k]->Ok_0)) by {
                            assert(items[k] is Ok);
                            if let Some(item) = S::seen(items[k]->Ok_0) {
                                if satisfies::<S::Item, Op, P>(item, predicate) {
                                    predicate.sound(lo, hi, S::Item::operand(item)->0);
                                }
                            }
                        }
                    },
            _ => {},
        }
    }
    lemma_readable(chain, mask);
    lemma_readable(chain, fewer);
    let (more, less) = (
        decoded_all::<S::Raw>(retained(buffers, mask), map),
        decoded_all::<S::Raw>(retained(buffers, fewer), map),
    );
    if filter.source.take == 0 {
        assert forall|j: int| 0 <= j < mask.len() implies !#[trigger] mask[j] by {}
        assert forall|j: int| 0 <= j < mask.len() implies !#[trigger] fewer[j] by {
            assert(!mask[j]);
        }
        assert(fewer =~= mask);
    } else {
        lemma_split::<S>(buffers, map, first, least(limit + 1, buffers.len()));
        lemma_pane_reads_less::<S>(buffers, map, first, mask, limit);
        lemma_take_keeps::<S>(buffers, map, mask, fewer, passes, limit, keep);
    }
    let (v, w) = (
        width(buffers, mask, limit, keep)->Ok_0,
        width(buffers, fewer, limit, keep)->Ok_0,
    );
    let (x, y) = (upto(more, v), upto(less, w));
    lemma_rendered(more, sight::<S>(), chain.passes(), v);
    lemma_rendered(less, sight::<S>(), chain.passes(), w);
    lemma_tested_rendered::<S>(y, chain.passes(), test);
    lemma_tested_rendered::<S>(x, chain.passes(), test);
    assert(past(rendered(x, sight::<S>(), chain.passes()), 0) =~= rendered(
        x,
        sight::<S>(),
        chain.passes(),
    ));
    let judged = rendered(y, sight::<S>(), passes);
    assert(kept =~= judged);
    let expected = Seq::new(
        before.len(),
        |i: int|
            tested(
                before[i],
                |item: <S::Item as DeepView>::V|
                    S::Item::operand(item) matches Some(op) && filter.predicate.held().admits(op),
            ),
    );
    assert(before =~= rendered(x, sight::<S>(), chain.passes()));
    assert(expected =~= rendered(x, sight::<S>(), passes));
}

} // verus!
