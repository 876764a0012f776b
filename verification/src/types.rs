//! The types of the items that columns hold.

use crate::float::{Float32, Float64};
use crate::nonzero::{
    NonZeroI128, NonZeroI16, NonZeroI32, NonZeroI64, NonZeroI8, NonZeroU128, NonZeroU16, NonZeroU32,
    NonZeroU64, NonZeroU8,
};
use vstd::prelude::*;

verus! {

/// The type of the items in a column.
#[derive(Debug)]
#[non_exhaustive]
pub enum Type {
    /// Unsigned integer of eight bits.
    U8,
    /// Unsigned integer of sixteen bits.
    U16,
    /// Unsigned integer of 32 bits.
    U32,
    /// Unsigned integer of 64 bits.
    U64,
    /// Unsigned integer of 128 bits.
    U128,
    /// Signed integer of eight bits.
    I8,
    /// Signed integer of sixteen bits.
    I16,
    /// Signed integer of 32 bits.
    I32,
    /// Signed integer of 64 bits.
    I64,
    /// Signed integer of 128 bits.
    I128,
    /// Unsigned integer of eight bits other than zero.
    NZU8,
    /// Unsigned integer of sixteen bits other than zero.
    NZU16,
    /// Unsigned integer of 32 bits other than zero.
    NZU32,
    /// Unsigned integer of 64 bits other than zero.
    NZU64,
    /// Unsigned integer of 128 bits other than zero.
    NZU128,
    /// Signed integer of eight bits other than zero.
    NZI8,
    /// Signed integer of sixteen bits other than zero.
    NZI16,
    /// Signed integer of 32 bits other than zero.
    NZI32,
    /// Signed integer of 64 bits other than zero.
    NZI64,
    /// Signed integer of 128 bits other than zero.
    NZI128,
    /// Floating point number of 32 bits.
    F32,
    /// Floating point number of 64 bits.
    F64,
    /// Truth value.
    Bool,
    /// Unicode scalar value.
    Char,
    /// Text.
    String,
    /// Optional item.
    Option(Box<Type>),
    /// List of items.
    Sequence(Box<Type>),
}

impl Type {
    /// The type of an optional item.
    pub fn option(inner: Type) -> (ty: Type)
        ensures
            ty == Type::Option(Box::new(inner)),
    {
        Type::Option(Box::new(inner))
    }

    /// The type of a list of items.
    pub fn sequence(inner: Type) -> (ty: Type)
        ensures
            ty == Type::Sequence(Box::new(inner)),
    {
        Type::Sequence(Box::new(inner))
    }

    /// Whether `self` and `other` are the same type.
    pub fn same(&self, other: &Type) -> (same: bool)
        ensures
            same == (*self == *other),
        decreases *self,
    {
        match (self, other) {
            (Type::U8, Type::U8) => true,
            (Type::U16, Type::U16) => true,
            (Type::U32, Type::U32) => true,
            (Type::U64, Type::U64) => true,
            (Type::U128, Type::U128) => true,
            (Type::I8, Type::I8) => true,
            (Type::I16, Type::I16) => true,
            (Type::I32, Type::I32) => true,
            (Type::I64, Type::I64) => true,
            (Type::I128, Type::I128) => true,
            (Type::NZU8, Type::NZU8) => true,
            (Type::NZU16, Type::NZU16) => true,
            (Type::NZU32, Type::NZU32) => true,
            (Type::NZU64, Type::NZU64) => true,
            (Type::NZU128, Type::NZU128) => true,
            (Type::NZI8, Type::NZI8) => true,
            (Type::NZI16, Type::NZI16) => true,
            (Type::NZI32, Type::NZI32) => true,
            (Type::NZI64, Type::NZI64) => true,
            (Type::NZI128, Type::NZI128) => true,
            (Type::F32, Type::F32) => true,
            (Type::F64, Type::F64) => true,
            (Type::Bool, Type::Bool) => true,
            (Type::Char, Type::Char) => true,
            (Type::String, Type::String) => true,
            (Type::Option(a), Type::Option(b)) => a.same(b),
            (Type::Sequence(a), Type::Sequence(b)) => a.same(b),
            _ => false,
        }
    }
}

impl Clone for Type {
    fn clone(&self) -> (copy: Type)
        ensures
            copy == *self,
        decreases *self,
    {
        match self {
            Type::U8 => Type::U8,
            Type::U16 => Type::U16,
            Type::U32 => Type::U32,
            Type::U64 => Type::U64,
            Type::U128 => Type::U128,
            Type::I8 => Type::I8,
            Type::I16 => Type::I16,
            Type::I32 => Type::I32,
            Type::I64 => Type::I64,
            Type::I128 => Type::I128,
            Type::NZU8 => Type::NZU8,
            Type::NZU16 => Type::NZU16,
            Type::NZU32 => Type::NZU32,
            Type::NZU64 => Type::NZU64,
            Type::NZU128 => Type::NZU128,
            Type::NZI8 => Type::NZI8,
            Type::NZI16 => Type::NZI16,
            Type::NZI32 => Type::NZI32,
            Type::NZI64 => Type::NZI64,
            Type::NZI128 => Type::NZI128,
            Type::F32 => Type::F32,
            Type::F64 => Type::F64,
            Type::Bool => Type::Bool,
            Type::Char => Type::Char,
            Type::String => Type::String,
            Type::Option(inner) => Type::Option(Box::new((**inner).clone())),
            Type::Sequence(inner) => Type::Sequence(Box::new((**inner).clone())),
        }
    }
}

impl PartialEq for Type {
    fn eq(&self, other: &Type) -> (same: bool) {
        self.same(other)
    }
}

impl vstd::std_specs::cmp::PartialEqSpecImpl for Type {
    open spec fn obeys_eq_spec() -> bool {
        true
    }

    open spec fn eq_spec(&self, other: &Type) -> bool {
        *self == *other
    }
}

/// An item whose type a column can record.
pub trait Unfold {
    /// The type that a column of such items records.
    spec fn shape() -> Type;

    /// The type that a column of such items records.
    fn unfold() -> (ty: Type)
        ensures
            ty == Self::shape(),
    ;
}

impl Unfold for u8 {
    open spec fn shape() -> Type {
        Type::U8
    }

    fn unfold() -> (ty: Type) {
        Type::U8
    }
}

impl Unfold for u16 {
    open spec fn shape() -> Type {
        Type::U16
    }

    fn unfold() -> (ty: Type) {
        Type::U16
    }
}

impl Unfold for u32 {
    open spec fn shape() -> Type {
        Type::U32
    }

    fn unfold() -> (ty: Type) {
        Type::U32
    }
}

impl Unfold for u64 {
    open spec fn shape() -> Type {
        Type::U64
    }

    fn unfold() -> (ty: Type) {
        Type::U64
    }
}

impl Unfold for u128 {
    open spec fn shape() -> Type {
        Type::U128
    }

    fn unfold() -> (ty: Type) {
        Type::U128
    }
}

impl Unfold for i8 {
    open spec fn shape() -> Type {
        Type::I8
    }

    fn unfold() -> (ty: Type) {
        Type::I8
    }
}

impl Unfold for i16 {
    open spec fn shape() -> Type {
        Type::I16
    }

    fn unfold() -> (ty: Type) {
        Type::I16
    }
}

impl Unfold for i32 {
    open spec fn shape() -> Type {
        Type::I32
    }

    fn unfold() -> (ty: Type) {
        Type::I32
    }
}

impl Unfold for i64 {
    open spec fn shape() -> Type {
        Type::I64
    }

    fn unfold() -> (ty: Type) {
        Type::I64
    }
}

impl Unfold for i128 {
    open spec fn shape() -> Type {
        Type::I128
    }

    fn unfold() -> (ty: Type) {
        Type::I128
    }
}

impl Unfold for NonZeroU8 {
    open spec fn shape() -> Type {
        Type::NZU8
    }

    fn unfold() -> (ty: Type) {
        Type::NZU8
    }
}

impl Unfold for NonZeroU16 {
    open spec fn shape() -> Type {
        Type::NZU16
    }

    fn unfold() -> (ty: Type) {
        Type::NZU16
    }
}

impl Unfold for NonZeroU32 {
    open spec fn shape() -> Type {
        Type::NZU32
    }

    fn unfold() -> (ty: Type) {
        Type::NZU32
    }
}

impl Unfold for NonZeroU64 {
    open spec fn shape() -> Type {
        Type::NZU64
    }

    fn unfold() -> (ty: Type) {
        Type::NZU64
    }
}

impl Unfold for NonZeroU128 {
    open spec fn shape() -> Type {
        Type::NZU128
    }

    fn unfold() -> (ty: Type) {
        Type::NZU128
    }
}

impl Unfold for NonZeroI8 {
    open spec fn shape() -> Type {
        Type::NZI8
    }

    fn unfold() -> (ty: Type) {
        Type::NZI8
    }
}

impl Unfold for NonZeroI16 {
    open spec fn shape() -> Type {
        Type::NZI16
    }

    fn unfold() -> (ty: Type) {
        Type::NZI16
    }
}

impl Unfold for NonZeroI32 {
    open spec fn shape() -> Type {
        Type::NZI32
    }

    fn unfold() -> (ty: Type) {
        Type::NZI32
    }
}

impl Unfold for NonZeroI64 {
    open spec fn shape() -> Type {
        Type::NZI64
    }

    fn unfold() -> (ty: Type) {
        Type::NZI64
    }
}

impl Unfold for NonZeroI128 {
    open spec fn shape() -> Type {
        Type::NZI128
    }

    fn unfold() -> (ty: Type) {
        Type::NZI128
    }
}

impl Unfold for Float32 {
    open spec fn shape() -> Type {
        Type::F32
    }

    fn unfold() -> (ty: Type) {
        Type::F32
    }
}

impl Unfold for Float64 {
    open spec fn shape() -> Type {
        Type::F64
    }

    fn unfold() -> (ty: Type) {
        Type::F64
    }
}

impl Unfold for bool {
    open spec fn shape() -> Type {
        Type::Bool
    }

    fn unfold() -> (ty: Type) {
        Type::Bool
    }
}

impl Unfold for char {
    open spec fn shape() -> Type {
        Type::Char
    }

    fn unfold() -> (ty: Type) {
        Type::Char
    }
}

impl Unfold for String {
    open spec fn shape() -> Type {
        Type::String
    }

    fn unfold() -> (ty: Type) {
        Type::String
    }
}

impl<'d> Unfold for &'d str {
    open spec fn shape() -> Type {
        Type::String
    }

    fn unfold() -> (ty: Type) {
        Type::String
    }
}

impl<I: Unfold> Unfold for Option<I> {
    open spec fn shape() -> Type {
        Type::Option(Box::new(I::shape()))
    }

    fn unfold() -> (ty: Type) {
        Type::Option(Box::new(I::unfold()))
    }
}

impl<I: Unfold> Unfold for Vec<I> {
    open spec fn shape() -> Type {
        Type::Sequence(Box::new(I::shape()))
    }

    fn unfold() -> (ty: Type) {
        Type::Sequence(Box::new(I::unfold()))
    }
}

// ---------------------------------------------------------------- laws

/// Each type of item is recorded as the type of its name.
pub proof fn law_items_are_recorded_as_their_type()
    ensures
        <u8 as Unfold>::shape() is U8,
        <u16 as Unfold>::shape() is U16,
        <u32 as Unfold>::shape() is U32,
        <u64 as Unfold>::shape() is U64,
        <u128 as Unfold>::shape() is U128,
        <i8 as Unfold>::shape() is I8,
        <i16 as Unfold>::shape() is I16,
        <i32 as Unfold>::shape() is I32,
        <i64 as Unfold>::shape() is I64,
        <i128 as Unfold>::shape() is I128,
        <NonZeroU8 as Unfold>::shape() is NZU8,
        <NonZeroU16 as Unfold>::shape() is NZU16,
        <NonZeroU32 as Unfold>::shape() is NZU32,
        <NonZeroU64 as Unfold>::shape() is NZU64,
        <NonZeroU128 as Unfold>::shape() is NZU128,
        <NonZeroI8 as Unfold>::shape() is NZI8,
        <NonZeroI16 as Unfold>::shape() is NZI16,
        <NonZeroI32 as Unfold>::shape() is NZI32,
        <NonZeroI64 as Unfold>::shape() is NZI64,
        <NonZeroI128 as Unfold>::shape() is NZI128,
        <Float32 as Unfold>::shape() is F32,
        <Float64 as Unfold>::shape() is F64,
        <bool as Unfold>::shape() is Bool,
        <char as Unfold>::shape() is Char,
        <String as Unfold>::shape() is String,
        <&str as Unfold>::shape() is String,
{
}

/// An optional item and a list are recorded as such, with the type of what they hold.
pub proof fn law_nested_items_are_recorded_by_what_they_hold<I: Unfold>(
    inner: Type,
    optional: Type,
    list: Type,
)
    requires
        call_ensures(I::unfold, (), inner),
        call_ensures(<Option<I> as Unfold>::unfold, (), optional),
        call_ensures(<Vec<I> as Unfold>::unfold, (), list),
    ensures
        optional == Type::Option(Box::new(inner)),
        list == Type::Sequence(Box::new(inner)),
        optional != list,
{
}

/// Two types are the same where nothing tells them apart.
pub proof fn law_types_are_compared_by_structure(
    a: Type,
    b: Type,
    same: bool,
    wrapped: (Type, Type, Type, Type),
    equal: (bool, bool, bool),
)
    requires
        call_ensures(Type::same, (&a, &b), same),
        call_ensures(Type::option, (a,), wrapped.0),
        call_ensures(Type::option, (b,), wrapped.1),
        call_ensures(Type::sequence, (a,), wrapped.2),
        call_ensures(Type::sequence, (b,), wrapped.3),
        call_ensures(Type::same, (&wrapped.0, &wrapped.1), equal.0),
        call_ensures(Type::same, (&wrapped.2, &wrapped.3), equal.1),
        call_ensures(Type::same, (&wrapped.0, &wrapped.3), equal.2),
    ensures
        same == (a == b),
        equal.0 == same,
        equal.1 == same,
        !equal.2,
{
}

} // verus!
