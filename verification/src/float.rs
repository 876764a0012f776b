//! Floating point numbers by their bit patterns.

use crate::io::deserialize::Fixed;
use crate::io::error::Error;
use crate::num::{le_value, lemma_le_value_bound, lemma_span_values, read_le};
use vstd::prelude::*;

verus! {

/// A single precision number, held as its bit pattern. Two are equal where their patterns are.
#[derive(Debug, Clone, Copy, PartialEq, Eq, Hash, Structural)]
pub struct Float32 {
    /// The bit pattern: a sign bit, an exponent and a fraction.
    pub bits: u32,
}

impl Float32 {
    /// The pattern without its sign.
    pub open spec fn magnitude(self) -> int {
        self.bits as int % 0x8000_0000
    }

    /// Whether the pattern stands for no number.
    pub open spec fn is_nan(self) -> bool {
        self.magnitude() > 0x7F80_0000
    }

    /// An integer that orders patterns as the numbers they stand for. Both zeros have the rank zero.
    pub open spec fn rank(self) -> int {
        if self.bits < 0x8000_0000 {
            self.magnitude()
        } else {
            -self.magnitude()
        }
    }

    /// The rank of the number, or [`None`] where the pattern stands for none.
    pub fn ranked(&self) -> (rank: Option<i128>)
        ensures
            rank is None <==> self.is_nan(),
            rank matches Some(r) ==> r == self.rank(),
    {
        let magnitude: u32 = self.bits % 0x8000_0000;
        if magnitude > 0x7F80_0000 {
            None
        } else if self.bits < 0x8000_0000 {
            Some(magnitude as i128)
        } else {
            Some(-(magnitude as i128))
        }
    }
}

impl DeepView for Float32 {
    type V = Float32;

    open spec fn deep_view(&self) -> Float32 {
        *self
    }
}

impl Fixed for Float32 {
    open spec fn width() -> nat {
        4
    }

    fn size() -> (n: usize) {
        4
    }

    open spec fn spelled(bytes: Seq<u8>) -> Result<Self, Error> {
        Ok(Float32 { bits: le_value(bytes) as u32 })
    }

    fn read(bytes: &[u8]) -> (value: Result<Self, Error>) {
        proof {
            lemma_span_values();
            lemma_le_value_bound(bytes@);
        }
        Ok(Float32 { bits: read_le(bytes) as u32 })
    }

    proof fn plain(self) {
    }
}

/// A double precision number, held as its bit pattern. Two are equal where their patterns are.
#[derive(Debug, Clone, Copy, PartialEq, Eq, Hash, Structural)]
pub struct Float64 {
    /// The bit pattern: a sign bit, an exponent and a fraction.
    pub bits: u64,
}

impl Float64 {
    /// The pattern without its sign.
    pub open spec fn magnitude(self) -> int {
        self.bits as int % 0x8000_0000_0000_0000
    }

    /// Whether the pattern stands for no number.
    pub open spec fn is_nan(self) -> bool {
        self.magnitude() > 0x7FF0_0000_0000_0000
    }

    /// An integer that orders patterns as the numbers they stand for. Both zeros have the rank zero.
    pub open spec fn rank(self) -> int {
        if self.bits < 0x8000_0000_0000_0000 {
            self.magnitude()
        } else {
            -self.magnitude()
        }
    }

    /// The rank of the number, or [`None`] where the pattern stands for none.
    pub fn ranked(&self) -> (rank: Option<i128>)
        ensures
            rank is None <==> self.is_nan(),
            rank matches Some(r) ==> r == self.rank(),
    {
        let magnitude: u64 = self.bits % 0x8000_0000_0000_0000;
        if magnitude > 0x7FF0_0000_0000_0000 {
            None
        } else if self.bits < 0x8000_0000_0000_0000 {
            Some(magnitude as i128)
        } else {
            Some(-(magnitude as i128))
        }
    }
}

impl DeepView for Float64 {
    type V = Float64;

    open spec fn deep_view(&self) -> Float64 {
        *self
    }
}

impl Fixed for Float64 {
    open spec fn width() -> nat {
        8
    }

    fn size() -> (n: usize) {
        8
    }

    open spec fn spelled(bytes: Seq<u8>) -> Result<Self, Error> {
        Ok(Float64 { bits: le_value(bytes) as u64 })
    }

    fn read(bytes: &[u8]) -> (value: Result<Self, Error>) {
        proof {
            lemma_span_values();
            lemma_le_value_bound(bytes@);
        }
        Ok(Float64 { bits: read_le(bytes) as u64 })
    }

    proof fn plain(self) {
    }
}

} // verus!
