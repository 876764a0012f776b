//! Composite items, each rebuilt from one item of several columns.

use crate::io;
use crate::query::error::Error;
use crate::query::source::Query;
use crate::read::outcome::Outcome;
use crate::read::stream::{kept_of, Yields};
use vstd::prelude::*;

verus! {

/// A finite sequence of composite items that is rebuilt one by one.
pub trait Rows: Sized {
    /// The composite items.
    type Item;

    /// The outcomes still to come. Each reader states its own; the default says nothing of them.
    open spec fn rest(&self) -> Seq<Outcome<Self::Item>> {
        arbitrary()
    }

    /// Rebuilds one item.
    fn next(&mut self) -> (outcome: Option<Outcome<Self::Item>>)
        ensures
            match outcome {
                None => old(self).rest().len() == 0 && final(self).rest() == old(self).rest(),
                Some(o) => old(self).rest().len() > 0 && o == old(self).rest()[0]
                    && final(self).rest() == old(self).rest().skip(1),
            },
    ;
}

/// A composite item that can be read without a filter: every column that it names, combined.
pub trait Unfiltered<'d>: Sized {
    /// The reader of the items.
    type Reader: Rows<Item = Self>;

    /// The outcomes of every slot. Each item states its own; the default says nothing of them.
    open spec fn rows(query: Query<'d>) -> Result<Seq<Outcome<Self>>, Error> {
        arbitrary()
    }

    /// The outcomes of the slot at place `n`, if there is one. The default says nothing of them.
    open spec fn row(query: Query<'d>, n: nat) -> Result<Seq<Outcome<Self>>, Error> {
        arbitrary()
    }

    /// Opens every column, combines them and assembles the reader.
    fn unfiltered(query: Query<'d>) -> (reader: Result<Self::Reader, Error>)
        ensures
            match reader {
                Ok(r) => Self::rows(query) == Ok::<_, Error>(r.rest()),
                Err(e) => Self::rows(query) == Err::<Seq<Outcome<Self>>, Error>(e),
            },
    ;

    /// Opens every column at the slot at place `n`.
    fn nth(query: Query<'d>, n: usize) -> (reader: Result<Self::Reader, Error>)
        ensures
            match reader {
                Ok(r) => Self::row(query, n as nat) == Ok::<_, Error>(r.rest()),
                Err(e) => Self::row(query, n as nat) == Err::<Seq<Outcome<Self>>, Error>(e),
            },
    ;
}

/// A composite item that is rebuilt from a combination of columns.
pub trait Composite<'d, S>: Sized {
    /// The reader of the items.
    type Reader: Rows<Item = Self>;

    /// The outcomes of every slot of `src`. Each item states its own; the default says nothing of them.
    open spec fn assembled(src: S) -> Result<Seq<Outcome<Self>>, Error> {
        arbitrary()
    }

    /// Assembles the reader.
    fn new(src: S) -> (reader: Result<Self::Reader, Error>)
        ensures
            match reader {
                Ok(r) => Self::assembled(src) == Ok::<_, Error>(r.rest()),
                Err(e) => Self::assembled(src) == Err::<Seq<Outcome<Self>>, Error>(e),
            },
    ;
}

/// The included composite items and the errors.
pub struct Kept<R> {
    reader: R,
}

/// Drops everything but the included composite items and the errors.
pub fn kept<R: Rows>(reader: R) -> (rows: Kept<R>)
    ensures
        rows.rest() == kept_of(reader.rest()),
{
    Kept { reader }
}

impl<R: Rows> Kept<R> {
    /// The items still to come.
    pub closed spec fn rest(self) -> Seq<Result<R::Item, io::error::Error>> {
        kept_of(self.reader.rest())
    }

    /// Pulls one item, re-polling the reader until it has one.
    #[verifier::loop_isolation(false)]
    pub fn next(&mut self) -> (item: Option<Result<R::Item, io::error::Error>>)
        ensures
            match item {
                None => old(self).rest().len() == 0 && final(self).rest() == old(self).rest(),
                Some(i) => old(self).rest().len() > 0 && i == old(self).rest()[0]
                    && final(self).rest() == old(self).rest().skip(1),
            },
    {
        let ghost all = self.rest();
        loop
            invariant
                self.rest() == all,
            decreases self.reader.rest().len(),
        {
            match self.reader.next() {
                None => {
                    return None;
                },
                Some(Outcome::Include(item)) => {
                    assert(self.rest() =~= all.skip(1));
                    return Some(Ok(item));
                },
                Some(Outcome::Error(e)) => {
                    assert(self.rest() =~= all.skip(1));
                    return Some(Err(e));
                },
                Some(Outcome::Exclude(_)) => {},
                Some(Outcome::Absent) => {},
            }
        }
    }
}

impl<R: Rows> Yields for Kept<R> {
    type Item = R::Item;

    type Value = R::Item;

    open spec fn value(item: R::Item) -> R::Item {
        item
    }

    open spec fn left(&self) -> Seq<Result<R::Item, io::error::Error>> {
        self.rest()
    }

    fn pull(&mut self) -> (item: Option<Result<R::Item, io::error::Error>>) {
        self.next()
    }
}

} // verus!
