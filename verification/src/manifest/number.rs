//! Numeric type descriptors for buffer statistics.

use crate::primitive::Primitive;
use vstd::prelude::*;

verus! {

/// Classification of numeric primitive types.
#[derive(Debug, Clone, Copy, PartialEq, Eq, Structural)]
pub enum Kind {
    /// Unsigned integer type.
    UInt,
    /// Signed integer type.
    Int,
    /// Floating point type.
    Float,
}

/// A numeric type descriptor: a classification and a number of bytes, without a value.
#[derive(Debug, Clone, Copy, PartialEq, Eq, Structural)]
pub struct Number {
    /// Classification of the numeric type.
    pub kind: Kind,
    /// Number of bytes used to encode a value.
    pub bytes: u8,
}

impl Number {
    /// Whether the classification and the size together name a primitive type.
    pub open spec fn recognised(&self) -> bool {
        match self.kind {
            Kind::UInt | Kind::Int => self.bytes == 1 || self.bytes == 2 || self.bytes == 4
                || self.bytes == 8,
            Kind::Float => self.bytes == 4 || self.bytes == 8,
        }
    }

    /// The primitive type that the descriptor stands for.
    pub fn type_id(&self) -> (primitive: Primitive)
        requires
            self.recognised(),
        ensures
            primitive.width() == self.bytes,
            primitive.is_unsigned() <==> self.kind is UInt,
            primitive.is_signed() <==> self.kind is Int,
            primitive.is_float() <==> self.kind is Float,
    {
        match (self.kind, self.bytes) {
            (Kind::UInt, 1) => Primitive::U8,
            (Kind::UInt, 2) => Primitive::U16,
            (Kind::UInt, 4) => Primitive::U32,
            (Kind::UInt, 8) => Primitive::U64,
            (Kind::Int, 1) => Primitive::I8,
            (Kind::Int, 2) => Primitive::I16,
            (Kind::Int, 4) => Primitive::I32,
            (Kind::Int, 8) => Primitive::I64,
            (Kind::Float, 4) => Primitive::F32,
            _ => Primitive::F64,
        }
    }
}

// ---------------------------------------------------------------- laws

/// A descriptor stands for the primitive type of its kind and size.
pub proof fn law_descriptors_name_their_primitive(kind: Kind, bytes: u8, primitive: Primitive)
    requires
        (Number { kind, bytes }).recognised(),
        call_ensures(Number::type_id, (&Number { kind, bytes },), primitive),
    ensures
        match primitive {
            Primitive::U8 => kind is UInt && bytes == 1,
            Primitive::U16 => kind is UInt && bytes == 2,
            Primitive::U32 => kind is UInt && bytes == 4,
            Primitive::U64 => kind is UInt && bytes == 8,
            Primitive::I8 => kind is Int && bytes == 1,
            Primitive::I16 => kind is Int && bytes == 2,
            Primitive::I32 => kind is Int && bytes == 4,
            Primitive::I64 => kind is Int && bytes == 8,
            Primitive::F32 => kind is Float && bytes == 4,
            Primitive::F64 => kind is Float && bytes == 8,
        },
{
}

/// A descriptor is recognised if and only if there is a primitive type of its kind and size.
pub proof fn law_recognised_descriptors(kind: Kind, bytes: u8)
    ensures
        (Number { kind, bytes }).recognised() == (match kind {
            Kind::UInt | Kind::Int => bytes == 1 || bytes == 2 || bytes == 4 || bytes == 8,
            Kind::Float => bytes == 4 || bytes == 8,
        }),
{
}

} // verus!
