//! Schema descriptors.

use crate::entries::Entries;
use crate::io::region::Sector;
use crate::manifest::column::{total, Column};
use vstd::prelude::*;

verus! {

/// A schema descriptor: where the schema segment is located, and the columns by name.
#[derive(Debug)]
pub struct Schema {
    /// Location of the schema segment.
    pub sector: Sector,
    /// The columns by name.
    pub columns: Entries<Column>,
}

impl Schema {
    /// The number of items of the schema: all columns hold as many, so the first one decides.
    pub open spec fn items(&self) -> nat {
        if self.columns.held().len() == 0 {
            0
        } else {
            total(self.columns.held()[0].1.buffers.held())
        }
    }

    /// The number of items across every data segment.
    pub fn count(&self) -> (count: u64)
        requires
            self.items() <= u64::MAX,
        ensures
            count == self.items(),
    {
        if self.columns.len() == 0 {
            0
        } else {
            self.columns.at(0).count()
        }
    }
}

} // verus!
