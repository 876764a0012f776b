//! Byte ranges within a file.

use std::cmp::Ordering;
use vstd::prelude::*;

verus! {

/// A contiguous byte range within a file.
///
/// Equality compares offset and length. The order compares offsets alone: a sector closer to the end
/// of the file is greater than an earlier one.
#[derive(Debug, Clone, Copy, Eq, PartialEq, Structural)]
pub struct Sector {
    /// Byte offset to the start of the sector within the file.
    pub offset: u64,
    /// Length of the sector in bytes.
    pub length: usize,
}

impl PartialOrd for Sector {
    fn partial_cmp(&self, other: &Self) -> (order: Option<Ordering>) {
        if self.offset < other.offset {
            Some(Ordering::Less)
        } else if self.offset == other.offset {
            Some(Ordering::Equal)
        } else {
            Some(Ordering::Greater)
        }
    }
}

impl vstd::std_specs::cmp::PartialOrdSpecImpl for Sector {
    open spec fn obeys_partial_cmp_spec() -> bool {
        true
    }

    open spec fn partial_cmp_spec(&self, other: &Self) -> Option<Ordering> {
        if self.offset < other.offset {
            Some(Ordering::Less)
        } else if self.offset == other.offset {
            Some(Ordering::Equal)
        } else {
            Some(Ordering::Greater)
        }
    }
}

impl Sector {
    /// Compares the offsets of two sectors.
    pub fn cmp(&self, other: &Self) -> (order: Ordering)
        ensures
            self.offset < other.offset <==> order == Ordering::Less,
            self.offset == other.offset <==> order == Ordering::Equal,
            self.offset > other.offset <==> order == Ordering::Greater,
    {
        if self.offset < other.offset {
            Ordering::Less
        } else if self.offset == other.offset {
            Ordering::Equal
        } else {
            Ordering::Greater
        }
    }
}

} // verus!
