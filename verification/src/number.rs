//! Extensible numeric type descriptors for schema nodes.

use crate::primitive::Primitive;
use vstd::prelude::*;

verus! {

/// Classification of a numeric primitive type.
#[derive(Debug, Clone, Copy, PartialEq, Eq, Structural)]
pub enum Kind {
    /// Unsigned integer type.
    UInt,
    /// Non-zero unsigned integer type.
    NonZeroUInt,
    /// Signed integer type.
    Int,
    /// Non-zero signed integer type.
    NonZeroInt,
    /// Floating point type.
    Float,
}

/// A numeric type descriptor: a classification and a size, without a value.
#[derive(Debug, Clone, Copy, PartialEq, Eq, Structural)]
pub struct Number {
    /// Classification of the numeric primitive type.
    pub kind: Kind,
    /// Number of bytes used to encode a value.
    pub size: u8,
}

impl Number {
    /// Whether the classification and the size together name a primitive type.
    pub open spec fn recognised(&self) -> bool {
        match self.kind {
            Kind::UInt | Kind::Int => self.size == 1 || self.size == 2 || self.size == 4
                || self.size == 8,
            Kind::Float => self.size == 4 || self.size == 8,
            Kind::NonZeroUInt | Kind::NonZeroInt => false,
        }
    }

    /// The primitive type that the descriptor stands for.
    pub fn type_id(&self) -> (primitive: Primitive)
        requires
            self.recognised(),
        ensures
            primitive.width() == self.size,
            primitive.is_unsigned() <==> self.kind is UInt,
            primitive.is_signed() <==> self.kind is Int,
            primitive.is_float() <==> self.kind is Float,
    {
        match (self.kind, self.size) {
            (Kind::UInt, 1) => Primitive::U8,
            (Kind::UInt, 2) => Primitive::U16,
            (Kind::UInt, 4) => Primitive::U32,
            (Kind::UInt, 8) => Primitive::U64,
            (Kind::Int, 1) => Primitive::I8,
            (Kind::Int, 2) => Primitive::I16,
            (Kind::Int, 4) => Primitive::I32,
            (Kind::Int, 8) => Primitive::I64,
            (Kind::Float, 4) => Primitive::F32,
            _ => Primitive::F64,
        }
    }
}

// ---------------------------------------------------------------- laws

/// A descriptor stands for the primitive type of its kind and size.
pub proof fn law_descriptors_name_their_primitive(kind: Kind, size: u8, primitive: Primitive)
    requires
        (Number { kind, size }).recognised(),
        call_ensures(Number::type_id, (&Number { kind, size },), primitive),
    ensures
        match primitive {
            Primitive::U8 => kind is UInt && size == 1,
            Primitive::U16 => kind is UInt && size == 2,
            Primitive::U32 => kind is UInt && size == 4,
            Primitive::U64 => kind is UInt && size == 8,
            Primitive::I8 => kind is Int && size == 1,
            Primitive::I16 => kind is Int && size == 2,
            Primitive::I32 => kind is Int && size == 4,
            Primitive::I64 => kind is Int && size == 8,
            Primitive::F32 => kind is Float && size == 4,
            Primitive::F64 => kind is Float && size == 8,
        },
{
}

/// A descriptor is recognised if and only if there is a primitive type of its kind and size.
pub proof fn law_recognised_descriptors(kind: Kind, size: u8)
    ensures
        (Number { kind, size }).recognised() == (match kind {
            Kind::UInt | Kind::Int => size == 1 || size == 2 || size == 4 || size == 8,
            Kind::Float => size == 4 || size == 8,
            _ => false,
        }),
{
}

} // verus!
