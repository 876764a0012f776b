//! Unsigned integers as indices.

use vstd::prelude::*;

verus! {

/// An unsigned integer type.
pub trait Unsigned: Copy {
    /// The mathematical integer that `self` holds.
    spec fn number(self) -> nat;

    /// The largest integer that the type holds.
    spec fn largest() -> nat;

    /// The smallest integer.
    fn smallest() -> (n: Self)
        ensures
            n.number() == 0,
    ;

    /// The next integer, where the type holds it.
    fn next(self) -> (n: Option<Self>)
        ensures
            match n {
                Some(n) => n.number() == self.number() + 1 && self.number() < Self::largest(),
                None => self.number() == Self::largest(),
            },
    ;
}

impl Unsigned for u8 {
    open spec fn number(self) -> nat {
        self as nat
    }

    open spec fn largest() -> nat {
        u8::MAX as nat
    }

    fn smallest() -> (n: u8) {
        0
    }

    fn next(self) -> (n: Option<u8>) {
        self.checked_add(1)
    }
}

impl Unsigned for u16 {
    open spec fn number(self) -> nat {
        self as nat
    }

    open spec fn largest() -> nat {
        u16::MAX as nat
    }

    fn smallest() -> (n: u16) {
        0
    }

    fn next(self) -> (n: Option<u16>) {
        self.checked_add(1)
    }
}

impl Unsigned for u32 {
    open spec fn number(self) -> nat {
        self as nat
    }

    open spec fn largest() -> nat {
        u32::MAX as nat
    }

    fn smallest() -> (n: u32) {
        0
    }

    fn next(self) -> (n: Option<u32>) {
        self.checked_add(1)
    }
}

impl Unsigned for u64 {
    open spec fn number(self) -> nat {
        self as nat
    }

    open spec fn largest() -> nat {
        u64::MAX as nat
    }

    fn smallest() -> (n: u64) {
        0
    }

    fn next(self) -> (n: Option<u64>) {
        self.checked_add(1)
    }
}

impl Unsigned for u128 {
    open spec fn number(self) -> nat {
        self as nat
    }

    open spec fn largest() -> nat {
        u128::MAX as nat
    }

    fn smallest() -> (n: u128) {
        0
    }

    fn next(self) -> (n: Option<u128>) {
        self.checked_add(1)
    }
}

impl Unsigned for usize {
    open spec fn number(self) -> nat {
        self as nat
    }

    open spec fn largest() -> nat {
        usize::MAX as nat
    }

    fn smallest() -> (n: usize) {
        0
    }

    fn next(self) -> (n: Option<usize>) {
        self.checked_add(1)
    }
}

// ---------------------------------------------------------------- laws

/// Indices count from zero in steps of one up to the largest integer of their type.
pub proof fn law_indices_are_their_integers()
    ensures
        forall|n: u8| #[trigger] n.number() == n as nat,
        forall|n: u16| #[trigger] n.number() == n as nat,
        forall|n: u32| #[trigger] n.number() == n as nat,
        forall|n: u64| #[trigger] n.number() == n as nat,
        forall|n: u128| #[trigger] n.number() == n as nat,
        forall|n: usize| #[trigger] n.number() == n as nat,
        u8::largest() == 0xff,
        u16::largest() == 0xffff,
        u32::largest() == 0xffff_ffff,
        u64::largest() == 0xffff_ffff_ffff_ffff,
        u128::largest() == 0xffff_ffff_ffff_ffff_ffff_ffff_ffff_ffff,
        usize::largest() == usize::MAX as nat,
{
}

} // verus!
