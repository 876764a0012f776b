//! Opening columns and reading composite items.

use crate::entries::found;
use crate::manifest;
use crate::manifest::buffer::Buffer;
use crate::query::error::Error;
use crate::query::items::{decoded_all, lifted_all, pointed, Items};
use crate::query::source::{Column, Query, Src};
use crate::query::terminal::{collected, intern, interned, interrupted, interruptible, told_apart};
use crate::read::decode::Decode;
use crate::read::outcome::Outcome;
use crate::read::rows::{kept, Kept, Rows, Unfiltered};
use crate::read::stream::{kept_of, Stream};
use crate::types::Unfold;
use crate::unsigned::Unsigned;
use std::collections::HashMap;
use std::hash::Hash;
use vstd::prelude::*;
use xxhash_rust::xxh3::Xxh3Builder;

verus! {

/// Whether `error` is why a column of items of type `I` cannot be opened under `name`.
pub open spec fn refused<I: Unfold>(query: Query, name: Seq<char>, error: Error) -> bool {
    match found(query.schema.columns.held(), name) {
        None => error matches Error::Column { name: missing } && missing@ == name,
        Some(column) => column.ty != I::shape() && error == (Error::Type {
            expect: I::shape(),
            actual: column.ty,
        }),
    }
}

/// The buffers of the column under `name`, where it holds items of type `I`.
pub open spec fn opened<I: Unfold>(query: Query, name: Seq<char>) -> Option<Seq<Buffer>> {
    match found(query.schema.columns.held(), name) {
        Some(column) => if column.ty == I::shape() {
            Some(column.buffers.held())
        } else {
            None
        },
        None => None,
    }
}

impl<'d> Query<'d> {
    /// Opens a column, whose type is checked here and not again.
    pub fn column<I: Unfold>(&self, name: &str) -> (column: Result<Column<'d, I>, Error>)
        ensures
            match column {
                Ok(c) => c.src.query == *self && opened::<I>(*self, name@) == Some(c.src.list()),
                Err(e) => opened::<I>(*self, name@) is None && refused::<I>(*self, name@, e),
            },
    {
        match self.schema.columns.get(name) {
            Some(entry) => match entry.exact::<I>() {
                Ok(entry) => Ok(Column::from(Src { query: *self, buffers: &entry.buffers })),
                Err(e) => Err(e),
            },
            None => Err(Error::Column { name: name.to_owned() }),
        }
    }

    /// Reads every item of a column.
    pub fn read<I: Decode<'d> + Unfold>(self, name: &str) -> (items: Result<Items<'d, I>, Error>)
        ensures
            match items {
                Ok(i) => opened::<I>(self, name@) is Some && i.rest() == lifted_all(
                    decoded_all::<I>(opened::<I>(self, name@)->0, self.mmap@),
                ),
                Err(e) => opened::<I>(self, name@) is None && refused::<I>(self, name@, e),
            },
    {
        let schema: &'d manifest::schema::Schema = self.schema;
        let entry: &'d manifest::column::Column = match schema.columns.get(name) {
            Some(entry) => match entry.exact::<I>() {
                Ok(entry) => entry,
                Err(e) => return Err(e),
            },
            None => return Err(Error::Column { name: name.to_owned() }),
        };
        let mut buffers: Vec<&'d Buffer> = Vec::new();
        let mut i: usize = 0;
        while i < entry.buffers.len()
            invariant
                i <= entry.buffers.held().len(),
                pointed(buffers@) == entry.buffers.held().take(i as int),
            decreases entry.buffers.held().len() - i,
        {
            let ghost before = buffers@;
            let buffer: &'d Buffer = entry.buffers.get(i);
            buffers.push(buffer);
            i += 1;
            proof {
                assert(pointed(buffers@) =~= pointed(before).push(*buffer));
                assert(entry.buffers.held().take(i as int) =~= entry.buffers.held().take(
                    i - 1,
                ).push(*buffer));
            }
        }
        assert(pointed(buffers@) =~= entry.buffers.held());
        Ok(Items::new(buffers, self.mmap))
    }

    /// Reads the outcome of every slot as a composite item.
    pub fn rows<I: Unfiltered<'d>>(self) -> (reader: Result<I::Reader, Error>)
        ensures
            match reader {
                Ok(r) => I::rows(self) == Ok::<_, Error>(r.rest()),
                Err(e) => I::rows(self) == Err::<Seq<Outcome<I>>, Error>(e),
            },
    {
        I::unfiltered(self)
    }

    /// Reads every composite item.
    pub fn iter<I: Unfiltered<'d>>(self) -> (items: Result<Kept<I::Reader>, Error>)
        ensures
            match items {
                Ok(i) => I::rows(self) is Ok && i.rest() == kept_of(I::rows(self)->Ok_0),
                Err(e) => I::rows(self) == Err::<Seq<Outcome<I>>, Error>(e),
            },
    {
        match I::unfiltered(self) {
            Ok(reader) => Ok(kept(reader)),
            Err(e) => Err(e),
        }
    }

    /// Reads the composite item at place `n`, if there is one.
    pub fn nth<I: Unfiltered<'d>>(self, n: usize) -> (item: Result<Option<I>, Error>)
        ensures
            match I::row(self, n as nat) {
                Err(e) => item == Err::<Option<I>, Error>(e),
                Ok(row) => if kept_of(row).len() == 0 {
                    item == Ok::<Option<I>, Error>(None)
                } else {
                    match kept_of(row)[0] {
                        Ok(i) => item == Ok::<Option<I>, Error>(Some(i)),
                        Err(e) => item == Err::<Option<I>, Error>(Error::of(e)),
                    }
                },
            },
    {
        let reader = match I::nth(self, n) {
            Ok(reader) => reader,
            Err(e) => return Err(e),
        };
        let mut items = kept(reader);
        match items.next() {
            None => Ok(None),
            Some(Ok(item)) => Ok(Some(item)),
            Some(Err(e)) => Err(Error::from(e)),
        }
    }

    /// Maps each distinct composite item to the place of its first occurrence.
    pub fn into_hash_map<I: Unfiltered<'d> + Eq + Hash, N: Unsigned>(self) -> (map: Result<
        HashMap<I, N, Xxh3Builder>,
        Error,
    >)
        ensures
            match I::rows(self) {
                Err(e) => map == Err::<HashMap<I, N, Xxh3Builder>, Error>(e),
                Ok(rows) => match map {
                    Ok(m) => {
                        &&& collected(kept_of(rows)) is Ok
                        &&& told_apart::<Kept<I::Reader>>() ==> interrupted(
                            Seq::empty(),
                            kept_of(rows),
                            N::largest(),
                        ) is None
                        &&& told_apart::<Kept<I::Reader>>() ==> interned::<Kept<I::Reader>, N>(
                            m@,
                            collected(kept_of(rows))->Ok_0,
                        )
                    },
                    Err(e) => exists|cause: crate::io::error::Error| #[trigger]
                        interruptible(kept_of(rows), N::largest(), cause) && e == Error::of(cause)
                            && (told_apart::<Kept<I::Reader>>() ==> interrupted(
                            Seq::empty(),
                            kept_of(rows),
                            N::largest(),
                        ) == Some(cause)),
                },
            },
    {
        let items = match self.iter::<I>() {
            Ok(items) => items,
            Err(e) => return Err(e),
        };
        match intern::<Kept<I::Reader>, N>(items) {
            Ok(map) => Ok(map),
            Err(e) => Err(Error::from(e)),
        }
    }

    /// The number of items across every data segment.
    pub fn count(self) -> (count: u64)
        requires
            self.schema.items() <= u64::MAX,
        ensures
            count == self.schema.items(),
    {
        self.schema.count()
    }
}

impl<'d> PartialEq for Query<'d> {
    /// Whether two queries read the same schema, by its place in memory.
    fn eq(&self, other: &Self) -> (same: bool)
        ensures
            same ==> *self.schema == *other.schema,
    {
        self.same(other)
    }
}

impl<'d> vstd::std_specs::cmp::PartialEqSpecImpl for Query<'d> {
    open spec fn obeys_eq_spec() -> bool {
        false
    }

    open spec fn eq_spec(&self, other: &Self) -> bool {
        *self.schema == *other.schema
    }
}

// ---------------------------------------------------------------- laws

/// A column is opened under its name and as its type: where the schema has no column of the name, or one of
/// another type, the error says so.
pub proof fn law_columns_are_opened_by_name_and_type<'d, I: Unfold>(
    query: Query<'d>,
    name: &str,
    column: Result<Column<'d, I>, Error>,
    entry: Option<&manifest::column::Column>,
)
    requires
        call_ensures(Query::column::<I>, (&query, name), column),
        call_ensures(
            crate::entries::Entries::<manifest::column::Column>::get,
            (&query.schema.columns, name),
            entry,
        ),
    ensures
        match entry {
            None => column matches Err(e) && (e matches Error::Column { name: missing } && missing@
                == name@),
            Some(c) => if c.ty == I::shape() {
                column matches Ok(opened) && opened.src.query == query && opened.src.list()
                    == c.buffers.held()
            } else {
                column matches Err(e) && e == (Error::Type { expect: I::shape(), actual: c.ty })
            },
        },
{
}

/// Reading a column by its name gives the items of all of its buffers, in their order.
pub proof fn law_columns_are_read_by_name<'d, I: Decode<'d> + Unfold>(
    query: Query<'d>,
    name: &str,
    column: Column<'d, I>,
    items: Result<Items<'d, I>, Error>,
)
    requires
        call_ensures(Query::column::<I>, (&query, name), Ok(column)),
        call_ensures(Query::read::<I>, (query, name), items),
    ensures
        items matches Ok(i) && i.rest() == lifted_all(
            decoded_all::<I>(column.src.list(), query.mmap@),
        ),
{
}

/// Reading composite items keeps the included ones and the errors of all of them, and the item at a place
/// is the first of what reading that place keeps.
pub proof fn law_composite_items_are_kept<'d, I: Unfiltered<'d>>(
    query: Query<'d>,
    n: usize,
    rows: Seq<Outcome<I>>,
    row: Seq<Outcome<I>>,
    items: Result<Kept<I::Reader>, Error>,
    item: Result<Option<I>, Error>,
)
    requires
        I::rows(query) == Ok::<_, Error>(rows),
        I::row(query, n as nat) == Ok::<_, Error>(row),
        call_ensures(Query::iter::<I>, (query,), items),
        call_ensures(Query::nth::<I>, (query, n), item),
    ensures
        items matches Ok(kept) && kept.rest() == kept_of(rows),
        row.len() == 0 ==> item == Ok::<Option<I>, Error>(None),
        row.len() > 0 ==> (row[0] matches Outcome::Include(i) ==> item == Ok::<Option<I>, Error>(
            Some(i),
        )),
        row.len() > 0 ==> (row[0] matches Outcome::Error(e) ==> item == Err::<Option<I>, Error>(
            Error::of(e),
        )),
        row.len() == 1 && (row[0] is Exclude || row[0] is Absent) ==> item == Ok::<Option<I>, Error>(
            None,
        ),
{
    reveal_with_fuel(kept_of, 2);
    if row.len() == 1 {
        assert(row.skip(1) =~= Seq::<Outcome<I>>::empty());
    }
}

/// The number of items of a query is that of the first column of its schema.
pub proof fn law_queries_count_their_first_column<'d>(query: Query<'d>, count: u64)
    requires
        call_ensures(Query::count, (query,), count),
    ensures
        query.schema.columns.held().len() == 0 ==> count == 0,
        query.schema.columns.held().len() > 0 ==> count == manifest::column::total(
            query.schema.columns.held()[0].1.buffers.held(),
        ),
{
}

} // verus!
