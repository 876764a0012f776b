//! Sectors, non-zero integers and errors.

use msca::error::Error;
use msca::nonzero::{
    NonZeroU128, NonZeroU16, NonZeroU32, NonZeroU64, NonZeroU8, NonZeroUnsigned,
};
use msca::sector::Sector;
use std::fmt;

fn sec(offset: u64, length: usize) -> Sector {
    Sector { offset, length }
}

#[test]
fn sector_ord_descending() {
    assert!(sec(200, 16) > sec(100, 16));
    assert!(sec(100, 16) < sec(200, 16));
}

#[test]
fn sector_eq_compares_offset_and_length() {
    assert_eq!(sec(100, 16), sec(100, 16));
    assert_ne!(sec(100, 16), sec(100, 32));
}

#[test]
fn sector_is_copy() {
    let a = sec(10, 5);
    let b = a;
    assert_eq!(a, b);
}

fn check<T: NonZeroUnsigned + fmt::Debug + PartialEq>(v: T) {
    let mut buf = vec![0u8; T::SIZE];
    v.encode(&mut buf);
    assert_eq!(T::decode(&buf), Some(v));
}

#[test]
fn nzu_roundtrip() {
    check(NonZeroU8::new(1).expect("Not zero"));
    check(NonZeroU8::new(u8::MAX).expect("Not zero"));
    check(NonZeroU16::new(1).expect("Not zero"));
    check(NonZeroU16::new(u16::MAX).expect("Not zero"));
    check(NonZeroU32::new(1).expect("Not zero"));
    check(NonZeroU32::new(u32::MAX).expect("Not zero"));
    check(NonZeroU64::new(1).expect("Not zero"));
    check(NonZeroU64::new(u64::MAX).expect("Not zero"));
    check(NonZeroU128::new(1).expect("Not zero"));
    check(NonZeroU128::new(u128::MAX).expect("Not zero"));
}

#[test]
fn nzu_decode_zero_is_none() {
    let buf = [0u8; 8];
    assert_eq!(NonZeroU64::decode(&buf), None);
}

#[test]
fn error_display_includes_io_source() {
    let e: Error = std::io::Error::other("boom").into();
    assert!(e.message().contains("boom"));
}
