//! Keeps crate-owned traits from being implemented elsewhere.

use vstd::prelude::*;

verus! {

pub trait Sealed {

}

} // verus!
