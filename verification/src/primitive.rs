//! Primitive types by name.

use vstd::prelude::*;

verus! {

/// A numeric primitive type.
#[derive(Debug, Clone, Copy, PartialEq, Eq, Structural)]
pub enum Primitive {
    /// Unsigned integer of eight bits.
    U8,
    /// Unsigned integer of sixteen bits.
    U16,
    /// Unsigned integer of 32 bits.
    U32,
    /// Unsigned integer of 64 bits.
    U64,
    /// Signed integer of eight bits.
    I8,
    /// Signed integer of sixteen bits.
    I16,
    /// Signed integer of 32 bits.
    I32,
    /// Signed integer of 64 bits.
    I64,
    /// Floating point number of 32 bits.
    F32,
    /// Floating point number of 64 bits.
    F64,
}

impl Primitive {
    /// The number of bytes that a value takes.
    pub open spec fn width(self) -> nat {
        match self {
            Primitive::U8 | Primitive::I8 => 1,
            Primitive::U16 | Primitive::I16 => 2,
            Primitive::U32 | Primitive::I32 | Primitive::F32 => 4,
            Primitive::U64 | Primitive::I64 | Primitive::F64 => 8,
        }
    }

    /// Whether values are unsigned integers.
    pub open spec fn is_unsigned(self) -> bool {
        self is U8 || self is U16 || self is U32 || self is U64
    }

    /// Whether values are signed integers.
    pub open spec fn is_signed(self) -> bool {
        self is I8 || self is I16 || self is I32 || self is I64
    }

    /// Whether values are floating point numbers.
    pub open spec fn is_float(self) -> bool {
        self is F32 || self is F64
    }
}

// ---------------------------------------------------------------- laws

/// A primitive type is of one kind, and its name says how many bits a value takes.
pub proof fn law_primitives_are_what_their_names_say()
    ensures
        Primitive::U8.width() == 1 && Primitive::I8.width() == 1,
        Primitive::U16.width() == 2 && Primitive::I16.width() == 2,
        Primitive::U32.width() == 4 && Primitive::I32.width() == 4 && Primitive::F32.width() == 4,
        Primitive::U64.width() == 8 && Primitive::I64.width() == 8 && Primitive::F64.width() == 8,
        forall|p: Primitive|
            (#[trigger] p.is_unsigned()) == (p is U8 || p is U16 || p is U32 || p is U64),
        forall|p: Primitive|
            (#[trigger] p.is_signed()) == (p is I8 || p is I16 || p is I32 || p is I64),
        forall|p: Primitive| (#[trigger] p.is_float()) == (p is F32 || p is F64),
{
}

} // verus!
