//! Column descriptors.

use crate::manifest::buffer::Buffer;
use crate::query;
use crate::types::{Type, Unfold};
use vstd::prelude::*;

verus! {

/// The largest number of buffers of a column, which is the largest number of bits of a mask.
pub const MOST_BUFFERS: usize = usize::MAX / 8;

/// Whether each buffer is located before the next one.
pub open spec fn ascending(buffers: Seq<Buffer>) -> bool {
    forall|i: int, j: int|
        0 <= i < j < buffers.len() ==> (#[trigger] buffers[i]).place().offset < (
        #[trigger] buffers[j]).place().offset
}

/// How many of `buffers` are located before `offset`.
pub open spec fn before(buffers: Seq<Buffer>, offset: u64) -> int
    decreases buffers.len(),
{
    if buffers.len() == 0 || buffers.last().place().offset < offset {
        buffers.len() as int
    } else {
        before(buffers.drop_last(), offset)
    }
}

/// The buffers after `buffer` was offered to them: a buffer at a location that is taken is refused.
pub open spec fn with_buffer(buffers: Seq<Buffer>, buffer: Buffer) -> Seq<Buffer> {
    let at = before(buffers, buffer.place().offset);
    if at < buffers.len() && buffers[at].place().offset == buffer.place().offset {
        buffers
    } else {
        buffers.insert(at, buffer)
    }
}

/// The number of items that `buffers` stand for.
pub open spec fn total(buffers: Seq<Buffer>) -> nat
    decreases buffers.len(),
{
    if buffers.len() == 0 {
        0
    } else {
        total(buffers.drop_last()) + buffers.last().length() as nat
    }
}

/// The first buffers stand for no more items than all of them.
proof fn lemma_total_grows(buffers: Seq<Buffer>, n: int)
    requires
        0 <= n <= buffers.len(),
    ensures
        total(buffers.take(n)) <= total(buffers),
    decreases buffers.len() - n,
{
    if n < buffers.len() {
        lemma_total_grows(buffers, n + 1);
        assert(buffers.take(n + 1).drop_last() =~= buffers.take(n));
    } else {
        assert(buffers.take(n) =~= buffers);
    }
}

/// What the number of buffers located before an offset says of each of them.
proof fn lemma_before(buffers: Seq<Buffer>, offset: u64)
    requires
        ascending(buffers),
    ensures
        0 <= before(buffers, offset) <= buffers.len(),
        forall|i: int|
            0 <= i < before(buffers, offset) ==> (#[trigger] buffers[i]).place().offset < offset,
        forall|i: int|
            before(buffers, offset) <= i < buffers.len() ==> (#[trigger] buffers[i]).place().offset
                >= offset,
    decreases buffers.len(),
{
    if buffers.len() == 0 {
    } else if buffers.last().place().offset < offset {
        assert forall|i: int| 0 <= i < buffers.len() implies (#[trigger] buffers[i]).place().offset
            < offset by {
            assert(i == buffers.len() - 1 || buffers[i].place().offset < buffers[buffers.len()
                - 1].place().offset);
        }
    } else {
        let shorter = buffers.drop_last();
        lemma_before(shorter, offset);
        assert forall|i: int| before(buffers, offset) <= i < buffers.len() implies (
        #[trigger] buffers[i]).place().offset >= offset by {
            if i < shorter.len() {
                assert(shorter[i] == buffers[i]);
            }
        }
        assert forall|i: int| 0 <= i < before(buffers, offset) implies (
        #[trigger] buffers[i]).place().offset < offset by {
            assert(shorter[i] == buffers[i]);
        }
    }
}

/// The buffers of a column in the order of their location.
#[derive(Debug)]
pub struct Buffers {
    list: Vec<Buffer>,
}

impl Buffers {
    #[verifier::type_invariant]
    spec fn valid(self) -> bool {
        ascending(self.list@) && self.list@.len() <= MOST_BUFFERS
    }

    /// The buffers.
    pub closed spec fn held(self) -> Seq<Buffer> {
        self.list@
    }

    /// No buffers.
    pub fn new() -> (buffers: Self)
        ensures
            buffers.held() == Seq::<Buffer>::empty(),
    {
        Buffers { list: Vec::new() }
    }

    /// The number of buffers.
    pub fn len(&self) -> (n: usize)
        ensures
            n == self.held().len(),
            n <= MOST_BUFFERS,
            ascending(self.held()),
    {
        proof {
            use_type_invariant(self);
        }
        self.list.len()
    }

    /// The buffer at place `i`.
    pub fn get(&self, i: usize) -> (buffer: &Buffer)
        requires
            i < self.held().len(),
        ensures
            *buffer == self.held()[i as int],
    {
        &self.list[i]
    }

    /// Adds a buffer, unless one at its location is there. Says whether it did.
    pub fn insert(&mut self, buffer: Buffer) -> (added: bool)
        requires
            old(self).held().len() < MOST_BUFFERS,
        ensures
            final(self).held() == with_buffer(old(self).held(), buffer),
            added == (final(self).held().len() > old(self).held().len()),
    {
        let mut taken = Buffers { list: Vec::new() };
        core::mem::swap(self, &mut taken);
        proof {
            use_type_invariant(&taken);
        }
        let Buffers { list } = taken;
        let mut list: Vec<Buffer> = list;
        let ghost all = list@;
        let offset: u64 = buffer.sector().offset;
        let mut at: usize = list.len();
        assert(all.take(at as int) =~= all);
        while at > 0 && list[at - 1].sector().offset >= offset
            invariant
                at <= list@.len(),
                list@ == all,
                before(all, offset) == before(all.take(at as int), offset),
            decreases at,
        {
            assert(all.take(at as int).drop_last() =~= all.take(at - 1));
            at -= 1;
        }
        proof {
            lemma_before(all, offset);
            assert(before(all, offset) == at);
        }
        if at < list.len() && list[at].sector().offset == offset {
            *self = Buffers { list };
            false
        } else {
            list.insert(at, buffer);
            *self = Buffers { list };
            true
        }
    }
}

/// A column descriptor: the type of its items, and where its buffers are located.
///
/// Descriptors are compared by type alone.
#[derive(Debug)]
pub struct Column {
    /// The type of the items.
    pub ty: Type,
    /// The buffers, one for each data segment.
    pub buffers: Buffers,
}

impl Column {
    /// The entry of a column under its name, both borrowed.
    pub fn map<'m>(entry: (&'m String, &'m Column)) -> (borrowed: (&'m str, &'m Column))
        ensures
            borrowed.0@ == entry.0@,
            borrowed.1 == entry.1,
    {
        (entry.0.as_str(), entry.1)
    }

    /// The column, if it holds items of type `I`.
    pub fn exact<I: Unfold>(&self) -> (column: Result<&Self, query::error::Error>)
        ensures
            self.ty == I::shape() ==> column == Ok::<&Self, query::error::Error>(self),
            self.ty != I::shape() ==> column == Err::<&Self, _>(
                query::error::Error::Type { expect: I::shape(), actual: self.ty },
            ),
    {
        let expect: Type = I::unfold();
        if self.ty.same(&expect) {
            Ok(self)
        } else {
            Err(query::error::Error::Type { expect, actual: self.ty.clone() })
        }
    }

    /// The number of items that the buffers stand for.
    pub fn count(&self) -> (count: u64)
        requires
            total(self.buffers.held()) <= u64::MAX,
        ensures
            count == total(self.buffers.held()),
    {
        let n: usize = self.buffers.len();
        let ghost all = self.buffers.held();
        let mut count: u64 = 0;
        let mut i: usize = 0;
        while i < n
            invariant
                i <= n,
                n == all.len(),
                all == self.buffers.held(),
                total(all) <= u64::MAX,
                count == total(all.take(i as int)),
            decreases n - i,
        {
            proof {
                assert(all.take(i + 1).drop_last() =~= all.take(i as int));
                lemma_total_grows(all, i + 1);
            }
            count += self.buffers.get(i).count();
            i += 1;
        }
        assert(all.take(n as int) =~= all);
        count
    }

    /// The number of buffers, one for each data segment.
    pub fn size(&self) -> (size: usize)
        ensures
            size == self.buffers.held().len(),
    {
        self.buffers.len()
    }
}

impl PartialEq for Column {
    fn eq(&self, other: &Self) -> (same: bool) {
        self.ty.same(&other.ty)
    }
}

impl vstd::std_specs::cmp::PartialEqSpecImpl for Column {
    open spec fn obeys_eq_spec() -> bool {
        true
    }

    open spec fn eq_spec(&self, other: &Self) -> bool {
        self.ty == other.ty
    }
}

/// A column without buffers.
impl From<Type> for Column {
    fn from(ty: Type) -> (column: Self)
        ensures
            column.ty == ty,
            column.buffers.held() == Seq::<Buffer>::empty(),
    {
        Column { ty, buffers: Buffers::new() }
    }
}

impl vstd::std_specs::convert::FromSpecImpl<Type> for Column {
    open spec fn obeys_from_spec() -> bool {
        false
    }

    open spec fn from_spec(ty: Type) -> Self {
        arbitrary()
    }
}

// ---------------------------------------------------------------- laws

/// Offering a buffer adds it, unless one at its location is there, and changes nothing else: the buffers
/// stay in the order of their locations.
pub proof fn law_offered_buffers_are_added_in_order(buffers: Seq<Buffer>, buffer: Buffer)
    requires
        ascending(buffers),
    ensures
        ({
            let offset = buffer.place().offset;
            let after = with_buffer(buffers, buffer);
            let taken = exists|i: int|
                0 <= i < buffers.len() && (#[trigger] buffers[i]).place().offset == offset;
            &&& ascending(after)
            &&& taken ==> after == buffers
            &&& !taken ==> exists|at: int|
                0 <= at <= buffers.len() && #[trigger] buffers.insert(at, buffer) == after
        }),
        forall|i: int, j: int|
            0 <= i < j < with_buffer(buffers, buffer).len() ==> (
            #[trigger] with_buffer(buffers, buffer)[i]).place().offset < (#[trigger] with_buffer(
                buffers,
                buffer,
            )[j]).place().offset,
{
    let offset = buffer.place().offset;
    let at = before(buffers, offset);
    lemma_before(buffers, offset);
    let after = with_buffer(buffers, buffer);
    if exists|i: int| 0 <= i < buffers.len() && (#[trigger] buffers[i]).place().offset == offset {
        let i = choose|i: int|
            0 <= i < buffers.len() && (#[trigger] buffers[i]).place().offset == offset;
        assert(at <= i);
        if at < i {
            assert(buffers[at].place().offset < buffers[i].place().offset);
        }
    } else {
        assert(after == buffers.insert(at, buffer));
        assert forall|i: int, j: int| 0 <= i < j < after.len() implies (
        #[trigger] after[i]).place().offset < (#[trigger] after[j]).place().offset by {
            if j < at {
                assert(after[i] == buffers[i] && after[j] == buffers[j]);
            } else if j == at {
                assert(after[i] == buffers[i]);
            } else if i < at {
                assert(after[i] == buffers[i] && after[j] == buffers[j - 1]);
            } else if i == at {
                assert(after[j] == buffers[j - 1]);
            } else {
                assert(after[i] == buffers[i - 1] && after[j] == buffers[j - 1]);
            }
        }
    }
}

/// The number of items of some buffers is that of one and that of the others together.
pub proof fn law_totals_add_up(buffers: Seq<Buffer>, buffer: Buffer)
    ensures
        total(Seq::<Buffer>::empty()) == 0,
        total(buffers.push(buffer)) == total(buffers) + buffer.length(),
{
    assert(buffers.push(buffer).drop_last() =~= buffers);
}

/// A column is opened as the type that it has and as no other, and counts the items of its buffers.
pub proof fn law_columns_are_opened_as_their_type<I: Unfold>(
    column: Column,
    opened: Result<&Column, query::error::Error>,
    count: u64,
    size: usize,
)
    requires
        call_ensures(Column::exact::<I>, (&column,), opened),
        call_ensures(Column::count, (&column,), count),
        call_ensures(Column::size, (&column,), size),
    ensures
        opened is Ok <==> column.ty == I::shape(),
        opened matches Ok(c) ==> *c == column,
        opened matches Err(e) ==> e == (query::error::Error::Type {
            expect: I::shape(),
            actual: column.ty,
        }),
        count == total(column.buffers.held()),
        size == column.buffers.held().len(),
{
}

/// The buffers of a column are in the order of their offsets.
pub proof fn law_buffers_are_in_the_order_of_their_offsets(
    buffers: Buffers,
    n: usize,
    i: usize,
    j: usize,
    x: &Buffer,
    y: &Buffer,
)
    requires
        call_ensures(Buffers::len, (&buffers,), n),
        i < j < n,
        call_ensures(Buffers::get, (&buffers, i), x),
        call_ensures(Buffers::get, (&buffers, j), y),
    ensures
        x.place().offset < y.place().offset,
{
}

} // verus!
