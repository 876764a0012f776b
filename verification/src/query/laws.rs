//! What holds of queries as a whole.

use crate::io::error::Error;
use crate::io::region::index;
use crate::manifest::buffer::Buffer;
use crate::manifest::column::total;
use crate::query::filter::repeated;
use crate::query::items::{decoded, decoded_all, lifted_all};
use crate::query::iter::{saturated, summed, width};
use crate::query::mask::every;
use crate::query::refine::item_at;
use crate::query::resolve::outcomes;
use crate::query::source::{least, retained, Column};
use crate::query::window::{lemma_windowed, reached, skipped, trimmed, windowed, Skip, Take};
use crate::read::decode::Decode;
use crate::read::outcome::Outcome;
use crate::read::stream::{kept_of, past, upto};
use vstd::prelude::*;

verus! {

// ---------------------------------------------------------------- whole columns

/// The mask that includes the buffers from place `from` on.
pub open spec fn from_place(n: nat, from: nat) -> Seq<bool> {
    Seq::new(n, |i: int| i >= from)
}

/// A mask that includes the buffers from a place on retains them.
proof fn lemma_retained_from(buffers: Seq<Buffer>, from: nat)
    requires
        from <= buffers.len(),
    ensures
        retained(buffers, from_place(buffers.len(), from)) == buffers.skip(from as int),
    decreases buffers.len(),
{
    let mask = from_place(buffers.len(), from);
    if buffers.len() > 0 {
        let rest = buffers.skip(1);
        if from == 0 {
            assert(mask.skip(1) =~= from_place(rest.len(), 0));
            lemma_retained_from(rest, 0);
            assert(rest.skip(0) =~= rest);
            assert(retained(buffers, mask) =~= buffers.skip(0));
        } else {
            assert(mask.skip(1) =~= from_place(rest.len(), (from - 1) as nat));
            lemma_retained_from(rest, (from - 1) as nat);
            assert(rest.skip(from - 1) =~= buffers.skip(from as int));
        }
    } else {
        assert(buffers.skip(0) =~= Seq::<Buffer>::empty());
    }
}

/// What reading a column without a filter gives: the items of every buffer, in the order of the
/// buffers. Reading the column by its name gives the same.
pub proof fn law_unfiltered_read<'d, I: Decode<'d>>(column: Column<'d, I>)
    ensures
        outcomes(column) == Ok::<_, Error>(
            lifted_all(decoded_all::<I>(column.src.list(), column.src.bytes())),
        ),
{
    let buffers = column.src.list();
    let slots = lifted_all(decoded_all::<I>(buffers, column.src.bytes()));
    assert(every(buffers.len()) =~= from_place(buffers.len(), 0));
    lemma_retained_from(buffers, 0);
    assert(buffers.skip(0) =~= buffers);
    assert(past(slots, 0) =~= slots);
}

// ---------------------------------------------------------------- windows

/// Whether every buffer holds as many items as it records, and the number is an index.
pub open spec fn complete<'d, I: Decode<'d>>(buffers: Seq<Buffer>, map: Seq<u8>) -> bool {
    forall|i: int|
        0 <= i < buffers.len() ==> index((#[trigger] buffers[i]).length()) is Ok && decoded::<I>(
            buffers[i],
            map,
        ).len() == buffers[i].length()
}

/// A prefix of the slots of a column belongs to a prefix of its buffers.
proof fn lemma_decoded_split<'d, I: Decode<'d>>(buffers: Seq<Buffer>, map: Seq<u8>, at: int)
    requires
        0 <= at <= buffers.len(),
    ensures
        decoded_all::<I>(buffers, map) == decoded_all::<I>(buffers.take(at), map) + decoded_all::<
            I,
        >(buffers.skip(at), map),
    decreases at,
{
    if at == 0 {
        assert(buffers.skip(0) =~= buffers);
        assert(decoded_all::<I>(buffers, map) =~= decoded_all::<I>(buffers.take(0), map)
            + decoded_all::<I>(buffers, map));
    } else {
        let rest = buffers.skip(1);
        lemma_decoded_split::<I>(rest, map, at - 1);
        assert(buffers.take(at).skip(1) =~= rest.take(at - 1));
        assert(rest.skip(at - 1) =~= buffers.skip(at));
        assert(decoded_all::<I>(buffers, map) =~= decoded_all::<I>(buffers.take(at), map)
            + decoded_all::<I>(buffers.skip(at), map));
    }
}

/// One more buffer holds as many more slots as it records.
proof fn lemma_decoded_next<'d, I: Decode<'d>>(buffers: Seq<Buffer>, map: Seq<u8>, at: int)
    requires
        0 <= at < buffers.len(),
        complete::<I>(buffers, map),
    ensures
        decoded_all::<I>(buffers.take(at + 1), map).len() == decoded_all::<I>(
            buffers.take(at),
            map,
        ).len() + buffers[at].length(),
{
    let more = buffers.take(at + 1);
    lemma_decoded_split::<I>(more, map, at);
    assert(more.take(at) =~= buffers.take(at));
    assert(more.skip(at) =~= seq![buffers[at]]);
    assert(seq![buffers[at]].skip(1) =~= Seq::<Buffer>::empty());
    assert(decoded_all::<I>(seq![buffers[at]], map) =~= decoded::<I>(buffers[at], map)
        + decoded_all::<I>(Seq::<Buffer>::empty(), map));
}

/// A column holds as many slots as its buffers record, so that the count of a schema is the number of
/// items that reading its first column gives.
pub proof fn law_count<'d, I: Decode<'d>>(buffers: Seq<Buffer>, map: Seq<u8>)
    requires
        complete::<I>(buffers, map),
    ensures
        decoded_all::<I>(buffers, map).len() == total(buffers),
    decreases buffers.len(),
{
    if buffers.len() > 0 {
        let fewer = buffers.drop_last();
        assert forall|i: int| 0 <= i < fewer.len() implies index(
            (#[trigger] fewer[i]).length(),
        ) is Ok && decoded::<I>(fewer[i], map).len() == fewer[i].length() by {
            assert(fewer[i] == buffers[i]);
        }
        law_count::<I>(fewer, map);
        lemma_decoded_next::<I>(buffers, map, buffers.len() - 1);
        assert(buffers.take(buffers.len() as int) =~= buffers);
        assert(buffers.take(buffers.len() - 1) =~= fewer);
    }
}

/// Where a skip ends: what it leaves to skip is within the first buffer that it leaves.
proof fn lemma_skip<'d, I: Decode<'d>>(buffers: Seq<Buffer>, map: Seq<u8>, skip: nat, i: nat)
    requires
        complete::<I>(buffers, map),
        i <= buffers.len(),
    ensures
        ({
            let n = buffers.len();
            skipped(buffers, from_place(n, i), skip, i) matches Ok((mask, buffer, origin)) && {
                &&& i <= buffer <= n
                &&& origin <= skip
                &&& mask == from_place(n, buffer)
                &&& buffer < n ==> origin < buffers[buffer as int].length()
                &&& past(decoded_all::<I>(buffers.skip(i as int), map), skip) == past(
                    decoded_all::<I>(buffers.skip(buffer as int), map),
                    if buffer < n {
                        origin
                    } else {
                        0
                    },
                )
            }
        }),
    decreases buffers.len() - i,
{
    let n = buffers.len();
    let mask = from_place(n, i);
    let here = decoded_all::<I>(buffers.skip(i as int), map);
    if i >= n {
        assert(here.len() == 0);
        assert(past(here, skip) =~= past(here, 0));
    } else {
        let count = buffers[i as int].length() as nat;
        assert(index(buffers[i as int].length()) is Ok);
        if skip >= count {
            lemma_skip::<I>(buffers, map, (skip - count) as nat, i + 1);
            assert(mask.update(i as int, false) =~= from_place(n, i + 1));
            assert(buffers.skip(i as int).skip(1) =~= buffers.skip(i as int + 1));
            assert(past(here, skip) =~= past(
                decoded_all::<I>(buffers.skip(i as int + 1), map),
                (skip - count) as nat,
            ));
        }
    }
}

/// Skipping items commutes with what becomes of them.
proof fn lemma_lifted_past<V>(items: Seq<Result<V, Error>>, n: nat)
    ensures
        lifted_all(past(items, n)) == past(lifted_all(items), n),
        lifted_all(upto(items, n)) == upto(lifted_all(items), n),
{
    assert(lifted_all(past(items, n)) =~= past(lifted_all(items), n));
    assert(lifted_all(upto(items, n)) =~= upto(lifted_all(items), n));
}

/// Skipping the first `n` items of a column reads the rest of them.
pub proof fn law_skip<'d, I: Decode<'d>>(column: Column<'d, I>, n: usize)
    requires
        complete::<I>(column.src.list(), column.src.bytes()),
    ensures
        outcomes(Skip { source: column, skip: n }) == Ok::<_, Error>(
            past(
                lifted_all(decoded_all::<I>(column.src.list(), column.src.bytes())),
                n as nat,
            ),
        ),
{
    let (buffers, map) = (column.src.list(), column.src.bytes());
    assert(every(buffers.len()) =~= from_place(buffers.len(), 0));
    lemma_skip::<I>(buffers, map, n as nat, 0);
    let (mask, buffer, origin) = skipped(buffers, every(buffers.len()), n as nat, 0)->Ok_0;
    lemma_retained_from(buffers, buffer);
    assert(buffers.skip(0) =~= buffers);
    let all = decoded_all::<I>(buffers, map);
    let rest = decoded_all::<I>(buffers.skip(buffer as int), map);
    lemma_lifted_past(all, n as nat);
    lemma_lifted_past(
        rest,
        if buffer < buffers.len() {
            origin
        } else {
            0
        },
    );
}

/// A mask that includes the buffers from place `from` up to place `last` retains them.
proof fn lemma_retained_between(buffers: Seq<Buffer>, from: nat, last: nat)
    requires
        from <= buffers.len(),
        from <= last,
    ensures
        retained(buffers, trimmed(from_place(buffers.len(), from), last)) == buffers.subrange(
            from as int,
            least(last + 1, buffers.len()) as int,
        ),
    decreases buffers.len(),
{
    let n = buffers.len();
    let mask = trimmed(from_place(n, from), last);
    let end = least(last + 1, n) as int;
    if n > 0 {
        let rest = buffers.skip(1);
        if last == 0 {
            assert(mask.skip(1) =~= Seq::new(rest.len(), |i: int| false));
            lemma_retained_none(rest);
            assert(retained(buffers, mask) =~= buffers.subrange(0, end));
        } else if from == 0 {
            assert(mask.skip(1) =~= trimmed(from_place(rest.len(), 0), (last - 1) as nat));
            lemma_retained_between(rest, 0, (last - 1) as nat);
            assert(retained(buffers, mask) =~= buffers.subrange(0, end));
        } else {
            assert(mask.skip(1) =~= trimmed(
                from_place(rest.len(), (from - 1) as nat),
                (last - 1) as nat,
            ));
            lemma_retained_between(rest, (from - 1) as nat, (last - 1) as nat);
            assert(retained(buffers, mask) =~= buffers.subrange(from as int, end));
        }
    } else {
        assert(buffers.subrange(0, 0) =~= Seq::<Buffer>::empty());
    }
}

/// A mask that includes no buffer retains none.
proof fn lemma_retained_none(buffers: Seq<Buffer>)
    ensures
        retained(buffers, Seq::new(buffers.len(), |i: int| false)) == Seq::<Buffer>::empty(),
    decreases buffers.len(),
{
    if buffers.len() > 0 {
        assert(Seq::new(buffers.len(), |i: int| false).skip(1) =~= Seq::new(
            buffers.skip(1).len(),
            |i: int| false,
        ));
        lemma_retained_none(buffers.skip(1));
    }
}

/// Where a window ends, in numbers of slots.
proof fn lemma_reach<'d, I: Decode<'d>>(
    buffers: Seq<Buffer>,
    map: Seq<u8>,
    from: nat,
    take: nat,
    i: nat,
)
    requires
        complete::<I>(buffers, map),
        i <= buffers.len(),
        from <= buffers.len(),
    ensures
        ({
            let n = buffers.len();
            let at = if i < from {
                from
            } else {
                i
            };
            reached(buffers, from_place(n, from), take, i) matches Ok((limit, keep)) && {
                &&& at <= limit <= n
                &&& limit < n ==> keep <= buffers[limit as int].length()
                &&& decoded_all::<I>(buffers.take(limit as int), map).len() + keep
                    == decoded_all::<I>(buffers.take(at as int), map).len() + take
            }
        }),
    decreases buffers.len() - i,
{
    let n = buffers.len();
    if i >= n {
    } else if i < from {
        lemma_reach::<I>(buffers, map, from, take, i + 1);
    } else {
        let count = buffers[i as int].length() as nat;
        assert(index(buffers[i as int].length()) is Ok);
        if take > count {
            lemma_reach::<I>(buffers, map, from, (take - count) as nat, i + 1);
            lemma_decoded_next::<I>(buffers, map, i as int);
        }
    }
}

/// The number of items of the buffers from place `from` up to place `n`.
proof fn lemma_summed<'d, I: Decode<'d>>(
    buffers: Seq<Buffer>,
    map: Seq<u8>,
    mask: Seq<bool>,
    from: nat,
    n: nat,
)
    requires
        complete::<I>(buffers, map),
        from <= buffers.len(),
        n <= buffers.len() == mask.len(),
        forall|i: int| 0 <= i < n ==> #[trigger] mask[i] == (i >= from),
    ensures
        n <= from ==> summed(buffers, mask, n) == Ok::<nat, Error>(0),
        n >= from ==> summed(buffers, mask, n) == Ok::<nat, Error>(
            least(
                (decoded_all::<I>(buffers.take(n as int), map).len() - decoded_all::<I>(
                    buffers.take(from as int),
                    map,
                ).len()) as nat,
                usize::MAX as nat,
            ),
        ),
        n >= from ==> decoded_all::<I>(buffers.take(n as int), map).len() >= decoded_all::<I>(
            buffers.take(from as int),
            map,
        ).len(),
    decreases n,
{
    if n > 0 {
        lemma_summed::<I>(buffers, map, mask, from, (n - 1) as nat);
        lemma_decoded_next::<I>(buffers, map, n - 1);
        assert(index(buffers[n - 1].length()) is Ok);
    }
}

/// A window over a part of a sequence that reaches far enough is one over the whole.
proof fn lemma_cut<A>(part: Seq<A>, tail: Seq<A>, origin: nat, take: nat, w: nat)
    requires
        part.len() + tail.len() <= usize::MAX,
        w <= part.len(),
        w == saturated(take, origin) || (w == part.len() && tail.len() == 0 && w <= take + origin),
    ensures
        past(upto(part, w), origin) == upto(past(part + tail, origin), take),
{
    assert(past(upto(part, w), origin) =~= upto(past(part + tail, origin), take));
}

/// The number of slots in the first buffers of a column.
spec fn slots_before<'d, I: Decode<'d>>(buffers: Seq<Buffer>, map: Seq<u8>, at: nat) -> nat {
    decoded_all::<I>(buffers.take(at as int), map).len()
}

/// The slots of the buffers between two places, as part of those from the first place on.
proof fn lemma_between<'d, I: Decode<'d>>(buffers: Seq<Buffer>, map: Seq<u8>, from: nat, end: nat)
    requires
        from <= end <= buffers.len(),
    ensures
        ({
            let part = decoded_all::<I>(buffers.subrange(from as int, end as int), map);
            let tail = decoded_all::<I>(buffers.skip(end as int), map);
            &&& decoded_all::<I>(buffers.skip(from as int), map) == part + tail
            &&& part.len() == slots_before::<I>(buffers, map, end) - slots_before::<I>(
                buffers,
                map,
                from,
            )
            &&& decoded_all::<I>(buffers, map).len() == slots_before::<I>(buffers, map, end)
                + tail.len()
        }),
{
    let middle = buffers.subrange(from as int, end as int);
    lemma_decoded_split::<I>(buffers.skip(from as int), map, end - from);
    assert(buffers.skip(from as int).take(end - from) =~= middle);
    assert(buffers.skip(from as int).skip(end - from) =~= buffers.skip(end as int));
    lemma_decoded_split::<I>(buffers, map, end as int);
    lemma_decoded_split::<I>(buffers.take(end as int), map, from as int);
    assert(buffers.take(end as int).take(from as int) =~= buffers.take(from as int));
    assert(buffers.take(end as int).skip(from as int) =~= middle);
}

/// The window that starts `origin` slots into the buffer at place `from`, and the slots that it reads.
proof fn lemma_window<'d, I: Decode<'d>>(
    buffers: Seq<Buffer>,
    map: Seq<u8>,
    from: nat,
    origin: nat,
    take: nat,
)
    requires
        complete::<I>(buffers, map),
        from <= buffers.len(),
        from < buffers.len() ==> origin <= buffers[from as int].length(),
        from == buffers.len() ==> origin == 0,
        take <= usize::MAX,
        decoded_all::<I>(buffers, map).len() <= usize::MAX,
    ensures
        ({
            let n = buffers.len();
            let mask = from_place(n, from);
            let rest = decoded_all::<I>(buffers.skip(from as int), map);
            reached(buffers, mask, saturated(take, origin), 0) matches Ok((limit, keep)) && {
                &&& from <= limit <= n
                &&& width(buffers, trimmed(mask, limit), limit, keep) matches Ok(w) && past(
                    upto(
                        decoded_all::<I>(retained(buffers, trimmed(mask, limit)), map),
                        w,
                    ),
                    origin,
                ) == upto(past(rest, origin), take)
            }
        }),
{
    let n = buffers.len();
    let mask = from_place(n, from);
    let most = saturated(take, origin);
    lemma_reach::<I>(buffers, map, from, most, 0);
    assert(from == 0 ==> buffers.take(from as int) =~= Seq::<Buffer>::empty());
    let (limit, keep) = reached(buffers, mask, most, 0)->Ok_0;
    let cut = trimmed(mask, limit);
    assert forall|i: int| 0 <= i < limit implies #[trigger] cut[i] == (i >= from) by {}
    lemma_summed::<I>(buffers, map, cut, from, limit);
    lemma_retained_between(buffers, from, limit);
    let end = least(limit + 1, n);
    let part = decoded_all::<I>(buffers.subrange(from as int, end as int), map);
    let tail = decoded_all::<I>(buffers.skip(end as int), map);
    lemma_between::<I>(buffers, map, from, end);
    let w = width(buffers, cut, limit, keep)->Ok_0;
    if limit < n {
        lemma_decoded_next::<I>(buffers, map, limit as int);
        assert(w == most);
    } else {
        assert(tail.len() == 0);
        assert(w == part.len());
    }
    lemma_cut(part, tail, origin, take, w);
}

/// An empty window reads no buffer.
proof fn lemma_empty_window<'d, I: Decode<'d>>(
    buffers: Seq<Buffer>,
    map: Seq<u8>,
    mask: Seq<bool>,
    reach: nat,
    limit: nat,
    keep: nat,
)
    requires
        complete::<I>(buffers, map),
        mask.len() == buffers.len(),
    ensures
        ({
            let none = windowed(buffers, mask, 0, reach);
            &&& width(buffers, none, limit, keep) == Ok::<nat, Error>(0)
            &&& retained(buffers, none) == Seq::<Buffer>::empty()
        }),
{
    let none = windowed(buffers, mask, 0, reach);
    let n = least(limit, buffers.len());
    assert(none =~= Seq::new(buffers.len(), |i: int| false));
    lemma_retained_none(buffers);
    lemma_summed::<I>(buffers, map, none, buffers.len(), n);
}

/// Retaining the first `n` items of a column reads no others.
pub proof fn law_take<'d, I: Decode<'d>>(column: Column<'d, I>, n: usize)
    requires
        complete::<I>(column.src.list(), column.src.bytes()),
        decoded_all::<I>(column.src.list(), column.src.bytes()).len() <= usize::MAX,
    ensures
        outcomes(Take { source: column, take: n }) == Ok::<_, Error>(
            upto(
                lifted_all(decoded_all::<I>(column.src.list(), column.src.bytes())),
                n as nat,
            ),
        ),
{
    let (buffers, map) = (column.src.list(), column.src.bytes());
    let all = decoded_all::<I>(buffers, map);
    assert(every(buffers.len()) =~= from_place(buffers.len(), 0));
    lemma_window::<I>(buffers, map, 0, 0, n as nat);
    let (limit, keep) = reached(buffers, every(buffers.len()), n as nat, 0)->Ok_0;
    if n == 0 {
        lemma_empty_window::<I>(buffers, map, every(buffers.len()), 0, limit, keep);
        assert(upto(lifted_all(all), 0) =~= Seq::<Outcome<I::V>>::empty());
        assert(past(upto(lifted_all(decoded_all::<I>(Seq::<Buffer>::empty(), map)), 0), 0)
            =~= Seq::<Outcome<I::V>>::empty());
    } else {
        lemma_windowed(buffers, every(buffers.len()), n as nat, n as nat);
        let cut = trimmed(every(buffers.len()), limit);
        let w = width(buffers, cut, limit, keep)->Ok_0;
        let part = decoded_all::<I>(retained(buffers, cut), map);
        assert(buffers.skip(0) =~= buffers);
        assert(past(all, 0) =~= all);
        assert(past(upto(part, w), 0) =~= upto(part, w));
        lemma_lifted_past(all, n as nat);
        lemma_lifted_past(part, w);
        assert(past(lifted_all(upto(part, w)), 0) =~= lifted_all(upto(part, w)));
    }
}

/// Skipping items of a column and then retaining some reads the window between, across the boundaries
/// of buffers.
pub proof fn law_skip_then_take<'d, I: Decode<'d>>(column: Column<'d, I>, skip: usize, take: usize)
    requires
        complete::<I>(column.src.list(), column.src.bytes()),
        decoded_all::<I>(column.src.list(), column.src.bytes()).len() <= usize::MAX,
    ensures
        outcomes(Take { source: Skip { source: column, skip }, take }) == Ok::<_, Error>(
            upto(
                past(
                    lifted_all(decoded_all::<I>(column.src.list(), column.src.bytes())),
                    skip as nat,
                ),
                take as nat,
            ),
        ),
{
    let (buffers, map) = (column.src.list(), column.src.bytes());
    let n = buffers.len();
    let all = decoded_all::<I>(buffers, map);
    assert(every(n) =~= from_place(n, 0));
    lemma_skip::<I>(buffers, map, skip as nat, 0);
    let (mask, buffer, left) = skipped(buffers, every(n), skip as nat, 0)->Ok_0;
    let origin = if buffer < n {
        left
    } else {
        0
    };
    assert(buffers.skip(0) =~= buffers);
    lemma_window::<I>(buffers, map, buffer, origin, take as nat);
    let reach = saturated(take as nat, origin);
    let (limit, keep) = reached(buffers, mask, reach, 0)->Ok_0;
    let slots = lifted_all(all);
    if take == 0 {
        lemma_empty_window::<I>(buffers, map, mask, reach, limit, keep);
        assert(upto(past(slots, skip as nat), 0) =~= Seq::<Outcome<I::V>>::empty());
        let none = upto(lifted_all(decoded_all::<I>(Seq::<Buffer>::empty(), map)), 0);
        assert(past(none, 0) =~= Seq::<Outcome<I::V>>::empty());
    } else {
        lemma_windowed(buffers, mask, take as nat, reach);
        let cut = trimmed(mask, limit);
        let w = width(buffers, cut, limit, keep)->Ok_0;
        let part = decoded_all::<I>(retained(buffers, cut), map);
        let rest = decoded_all::<I>(buffers.skip(buffer as int), map);
        lemma_lifted_past(part, w);
        lemma_lifted_past(upto(part, w), origin);
        lemma_lifted_past(past(rest, origin), take as nat);
        lemma_lifted_past(all, skip as nat);
    }
}

/// The item at place `n` of a column is its `n`th one, and there is none past the last.
pub proof fn law_nth<'d, I: Decode<'d>>(column: Column<'d, I>, n: usize)
    requires
        complete::<I>(column.src.list(), column.src.bytes()),
        decoded_all::<I>(column.src.list(), column.src.bytes()).len() <= usize::MAX,
    ensures
        item_at(column, n) == ({
            let all = decoded_all::<I>(column.src.list(), column.src.bytes());
            if n < all.len() {
                match all[n as int] {
                    Ok(item) => Ok(Some(item)),
                    Err(e) => Err(e),
                }
            } else {
                Ok::<Option<I::V>, Error>(None)
            }
        }),
{
    law_skip_then_take(column, n, 1);
    let all = decoded_all::<I>(column.src.list(), column.src.bytes());
    let slots = upto(past(lifted_all(all), n as nat), 1);
    reveal_with_fuel(kept_of, 2);
    if n < all.len() {
        assert(slots =~= seq![Outcome::lifted(all[n as int])]);
        assert(slots.skip(1) =~= Seq::<Outcome<I::V>>::empty());
    } else {
        assert(slots =~= Seq::<Outcome<I::V>>::empty());
    }
}

// ---------------------------------------------------------------- compact buffers

/// A compact buffer reads as its item, as often as it records.
pub proof fn law_compact_repeats<'d, I: Decode<'d>>(buffer: Buffer, map: Seq<u8>)
    requires
        buffer is Compact,
        index(buffer.length()) is Ok,
        repeated::<I>(buffer.place(), map) is Ok,
    ensures
        decoded::<I>(buffer, map) == Seq::new(
            buffer.length() as nat,
            |i: int| Ok::<I::V, Error>(repeated::<I>(buffer.place(), map)->Ok_0),
        ),
{
}

} // verus!
