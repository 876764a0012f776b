//! Decoding the items of a column, buffer by buffer.

use crate::io::error::Error;
use crate::io::deserialize::Deserialize;
use crate::io::region::{index, to_index};
use crate::manifest::buffer::Buffer;
use crate::read::decode::Decode;
use crate::read::decoder::{pulled, Cursor, Decoder};
use crate::read::item::Item;
use crate::read::outcome::Outcome;
use crate::read::stream::Stream;
use vstd::prelude::*;

verus! {

/// What up to `n` pulls give.
pub open spec fn results<I: DeepView, C: Cursor<I>>(state: C::State, n: nat) -> Seq<
    Result<I::V, Error>,
>
    decreases n,
{
    if n == 0 {
        Seq::empty()
    } else {
        match C::step(state) {
            (None, _) => Seq::empty(),
            (Some(item), after) => seq![item] + results::<I, C>(after, (n - 1) as nat),
        }
    }
}

/// What the slots of a buffer hold: the repeated item of a compact buffer, or the items of any other,
/// up to the recorded number. A buffer that cannot be opened holds its error and nothing else.
pub open spec fn decoded<'d, I: Decode<'d>>(buffer: Buffer, map: Seq<u8>) -> Seq<
    Result<I::V, Error>,
> {
    match index(buffer.length()) {
        Err(e) => seq![Err(e)],
        Ok(n) => match buffer.place().covered(map) {
            Err(e) => seq![Err(e)],
            Ok(bytes) => match I::Src::parse(bytes).0 {
                Err(e) => seq![Err(e)],
                Ok(src) => if buffer is Compact {
                    match I::Src::single(src) {
                        Err(e) => seq![Err(e)],
                        Ok(item) => Seq::new(n as nat, |i: int| Ok(item)),
                    }
                } else {
                    match I::Src::started(src) {
                        Err(e) => seq![Err(e)],
                        Ok(state) => results::<I, <I::Src as Decoder<'d, I>>::Cursor>(
                            state,
                            n as nat,
                        ),
                    }
                },
            },
        },
    }
}

/// What the slots of several buffers hold, one buffer after the other.
pub open spec fn decoded_all<'d, I: Decode<'d>>(buffers: Seq<Buffer>, map: Seq<u8>) -> Seq<
    Result<I::V, Error>,
>
    decreases buffers.len(),
{
    if buffers.len() == 0 {
        Seq::empty()
    } else {
        decoded::<I>(buffers[0], map) + decoded_all::<I>(buffers.skip(1), map)
    }
}

/// What becomes of decoded items: each is included until a filter says otherwise.
pub open spec fn lifted_all<V>(items: Seq<Result<V, Error>>) -> Seq<Outcome<V>> {
    items.map_values(|item: Result<V, Error>| Outcome::lifted(item))
}

/// The buffers behind references.
pub open spec fn pointed<'d>(buffers: Seq<&'d Buffer>) -> Seq<Buffer> {
    buffers.map_values(|buffer: &'d Buffer| *buffer)
}

/// The items of one buffer that are still to come.
enum Run<'d, I: Decode<'d>> {
    /// One item, repeated.
    One {
        item: I,
        left: usize,
    },
    /// Different items.
    Std {
        cursor: <I::Src as Decoder<'d, I>>::Cursor,
        left: usize,
    },
    /// An error in place of the items.
    Failed(Error),
    /// Nothing.
    Done,
}

impl<'d, I: Decode<'d>> Run<'d, I> {
    /// The items still to come.
    spec fn rest(self) -> Seq<Result<I::V, Error>> {
        match self {
            Run::One { item, left } => Seq::new(left as nat, |i: int| Ok(item.deep_view())),
            Run::Std { cursor, left } => results::<I, <I::Src as Decoder<'d, I>>::Cursor>(
                cursor.state(),
                left as nat,
            ),
            Run::Failed(e) => seq![Err(e)],
            Run::Done => Seq::empty(),
        }
    }

    /// Pulls one item, and says what is left.
    fn pull(self) -> (step: (Option<Result<I, Error>>, Self))
        ensures
            match pulled(step.0) {
                None => self.rest().len() == 0,
                Some(i) => self.rest().len() > 0 && i == self.rest()[0] && step.1.rest()
                    == self.rest().skip(1),
            },
    {
        match self {
            Run::One { item, left } => {
                if left == 0 {
                    (None, Run::Done)
                } else {
                    let copy: I = item.duplicate();
                    let after: Self = Run::One { item, left: left - 1 };
                    assert(after.rest() =~= self.rest().skip(1));
                    (Some(Ok(copy)), after)
                }
            },
            Run::Std { cursor, left } => {
                if left == 0 {
                    return (None, Run::Done);
                }
                let mut cursor = cursor;
                match cursor.next() {
                    None => (None, Run::Done),
                    Some(item) => {
                        let after: Self = Run::Std { cursor, left: left - 1 };
                        assert(after.rest() =~= self.rest().skip(1));
                        (Some(item), after)
                    },
                }
            },
            Run::Failed(e) => {
                let after: Self = Run::Done;
                assert(after.rest() =~= self.rest().skip(1));
                (Some(Err(e)), after)
            },
            Run::Done => (None, Run::Done),
        }
    }

    /// Opens a buffer.
    fn open(buffer: &Buffer, map: &'d [u8]) -> (run: Self)
        ensures
            run.rest() == decoded::<I>(*buffer, map@),
    {
        let n: usize = match to_index(buffer.count()) {
            Ok(n) => n,
            Err(e) => return Run::Failed(e),
        };
        let mut bytes: &'d [u8] = match buffer.sector().slice(map) {
            Ok(bytes) => bytes,
            Err(e) => return Run::Failed(e),
        };
        let src = match I::Src::deserialize(&mut bytes) {
            Ok(src) => src,
            Err(e) => return Run::Failed(e),
        };
        match buffer {
            Buffer::Compact { .. } => match src.one() {
                Ok(item) => {
                    let run: Self = Run::One { item, left: n };
                    assert(run.rest() =~= decoded::<I>(*buffer, map@));
                    run
                },
                Err(e) => Run::Failed(e),
            },
            _ => match src.iter() {
                Ok(cursor) => Run::Std { cursor, left: n },
                Err(e) => Run::Failed(e),
            },
        }
    }
}

/// The items of a column, chained across buffers and decoded one by one.
pub struct Items<'d, I: Decode<'d>> {
    buffers: Vec<&'d Buffer>,
    at: usize,
    map: &'d [u8],
    run: Run<'d, I>,
}

impl<'d, I: Decode<'d>> Items<'d, I> {
    /// The items of `buffers`.
    pub fn new(buffers: Vec<&'d Buffer>, map: &'d [u8]) -> (items: Self)
        ensures
            items.rest() == lifted_all(decoded_all::<I>(pointed(buffers@), map@)),
    {
        let items = Items { buffers, at: 0, map, run: Run::Done };
        proof {
            assert(pointed(buffers@).skip(0) =~= pointed(buffers@));
            assert(items.left() =~= decoded_all::<I>(pointed(buffers@), map@));
        }
        items
    }

    /// The items still to come.
    closed spec fn left(&self) -> Seq<Result<I::V, Error>> {
        if self.at <= self.buffers@.len() {
            self.run.rest() + decoded_all::<I>(
                pointed(self.buffers@).skip(self.at as int),
                self.map@,
            )
        } else {
            self.run.rest()
        }
    }

    /// Pulls one item.
    #[verifier::loop_isolation(false)]
    fn pull(&mut self) -> (item: Option<Result<I, Error>>)
        ensures
            match pulled(item) {
                None => old(self).left().len() == 0 && final(self).left() == old(self).left(),
                Some(i) => old(self).left().len() > 0 && i == old(self).left()[0]
                    && final(self).left() == old(self).left().skip(1),
            },
    {
        let ghost all = self.left();
        loop
            invariant
                self.left() == all,
            decreases self.buffers@.len() - self.at,
        {
            let mut run: Run<'d, I> = Run::Done;
            core::mem::swap(&mut self.run, &mut run);
            let (item, after) = run.pull();
            if let Some(item) = item {
                self.run = after;
                assert(self.left() =~= all.skip(1));
                return Some(item);
            }
            if self.at >= self.buffers.len() {
                return None;
            }
            let ghost rest = pointed(self.buffers@).skip(self.at as int);
            self.run = Run::open(self.buffers[self.at], self.map);
            self.at = self.at + 1;
            proof {
                assert(rest.skip(1) =~= pointed(self.buffers@).skip(self.at as int));
                assert(self.left() =~= all);
            }
        }
    }
}

impl<'d, I: Decode<'d>> Stream for Items<'d, I> {
    type Item = I;

    closed spec fn rest(&self) -> Seq<Outcome<I::V>> {
        lifted_all(self.left())
    }

    fn next(&mut self) -> (outcome: Option<Outcome<I>>) {
        let ghost before = self.rest();
        match self.pull() {
            None => None,
            Some(item) => {
                assert(self.rest() =~= before.skip(1));
                Some(Outcome::from(item))
            },
        }
    }
}

// ---------------------------------------------------------------- laws

/// The items of several buffers are those of one after those of the others.
pub proof fn law_buffers_are_read_in_order<'d, I: Decode<'d>>(
    buffers: Seq<Buffer>,
    buffer: Buffer,
    map: Seq<u8>,
)
    ensures
        decoded_all::<I>(Seq::<Buffer>::empty(), map) == Seq::<Result<I::V, Error>>::empty(),
        decoded_all::<I>(buffers.push(buffer), map) == decoded_all::<I>(buffers, map) + decoded::<I>(
            buffer,
            map,
        ),
    decreases buffers.len(),
{
    let more = buffers.push(buffer);
    reveal_with_fuel(decoded_all, 2);
    if buffers.len() > 0 {
        let rest = buffers.skip(1);
        law_buffers_are_read_in_order::<I>(rest, buffer, map);
        assert(more.skip(1) =~= rest.push(buffer));
        assert(decoded_all::<I>(more, map) =~= decoded_all::<I>(buffers, map) + decoded::<I>(
            buffer,
            map,
        ));
    } else {
        assert(more.skip(1) =~= Seq::<Buffer>::empty());
        assert(decoded_all::<I>(more, map) =~= decoded::<I>(buffer, map));
        assert(decoded_all::<I>(buffers, map) + decoded::<I>(buffer, map) =~= decoded::<I>(buffer, map));
    }
}

/// A buffer gives no more items than it records, and one that cannot be opened gives its error and nothing
/// else.
pub proof fn law_buffers_give_no_more_than_they_record<'d, I: Decode<'d>>(buffer: Buffer, map: Seq<u8>)
    ensures
        buffer.length() > 0 ==> decoded::<I>(buffer, map).len() <= buffer.length(),
        buffer.length() > usize::MAX ==> decoded::<I>(buffer, map).len() == 1 && decoded::<I>(
            buffer,
            map,
        )[0] is Err,
        buffer.length() <= usize::MAX ==> (buffer.place().covered(map) matches Err(e) ==> decoded::<I>(
            buffer,
            map,
        ) == seq![Err::<I::V, Error>(e)]),
{
    if let Ok(n) = index(buffer.length()) {
        if let Ok(bytes) = buffer.place().covered(map) {
            if let Ok(src) = I::Src::parse(bytes).0 {
                if let Ok(state) = I::Src::started(src) {
                    lemma_results_bound::<I, <I::Src as Decoder<'d, I>>::Cursor>(state, n as nat);
                }
            }
        }
    }
}

/// Pulls give no more items than there are pulls.
proof fn lemma_results_bound<I: DeepView, C: Cursor<I>>(state: C::State, n: nat)
    ensures
        results::<I, C>(state, n).len() <= n,
    decreases n,
{
    if n > 0 {
        if let (Some(_), rest) = C::step(state) {
            lemma_results_bound::<I, C>(rest, (n - 1) as nat);
        }
    }
}

/// Reading buffers includes every item that can be decoded, and gives an error for every one that cannot.
pub proof fn law_read_items_are_included<'d, I: Decode<'d>>(
    buffers: Vec<&'d Buffer>,
    map: &'d [u8],
    items: Items<'d, I>,
    i: int,
)
    requires
        call_ensures(Items::<'d, I>::new, (buffers, map), items),
        0 <= i < items.rest().len(),
    ensures
        ({
            let all = decoded_all::<I>(buffers@.map_values(|buffer: &'d Buffer| *buffer), map@);
            &&& items.rest().len() == all.len()
            &&& all[i] matches Ok(item) ==> items.rest()[i] == Outcome::Include(item)
            &&& all[i] matches Err(e) ==> items.rest()[i] == Outcome::<I::V>::Error(e)
        }),
{
    assert(buffers@.map_values(|buffer: &'d Buffer| *buffer) =~= pointed(buffers@));
}

} // verus!
