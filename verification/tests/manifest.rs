//! Descriptors and segments.

use minicbor::Encoder;
use msca::bounds::Bounds;
use msca::entries::Entries;
use msca::io::error::Error;
use msca::io::region::Sector;
use msca::manifest::buffer::Buffer;
use msca::manifest::column::{Buffers, Column};
use msca::manifest::schema::Schema;
use msca::manifest::segment::{unwrap, verify, wrap, HEADER};
use msca::nonzero::NonZeroU64;
use msca::types::Type;

/// The CBOR encoding of a manifest without entries: a tagged array of no fields.
fn empty_manifest() -> Vec<u8> {
    let mut encoder = Encoder::new(Vec::new());
    encoder.tag(minicbor::data::Tag::new(100)).expect("Tag failed");
    encoder.array(0).expect("Array failed");
    encoder.into_writer()
}

#[test]
fn manifest_segment_round_trips() {
    let body = empty_manifest();
    let bytes = wrap(0, &body).expect("Wrap failed");
    let region = verify(&bytes).expect("Checksum failed");
    let out = &region[HEADER..];
    assert_eq!(out, body);
    assert_eq!(unwrap(&bytes).expect("Unwrap failed"), body);
}

#[test]
fn manifest_checksum_detects_corruption() {
    let mut bytes = wrap(0, &empty_manifest()).expect("Frame failed");
    bytes[HEADER] ^= u8::MAX;
    let err = verify(&bytes).expect_err("Corruption undetected");
    assert!(matches!(err, Error::Checksum));
}

#[test]
fn manifest_verify_rejects_short_region() {
    let err = verify([u8::MIN; 4].as_slice()).expect_err("Short region accepted");
    assert!(matches!(err, Error::Truncated { .. }));
}

#[test]
fn detailed_buffer_disjoint_by_statistics() {
    let bytes = [10u32.to_le_bytes(), 30u32.to_le_bytes()].concat();
    let width = size_of::<u32>() as u64;
    let detailed = Buffer::Detailed {
        buffer: Sector::new(0u64, bytes.len() as u64).expect("Sector::new failed"),
        count: NonZeroU64::new(2).expect("Count is zero"),
        min: Sector::new(0u64, width).expect("Sector::new failed"),
        max: Sector::new(width, width).expect("Sector::new failed"),
    };
    let above = |a: &u32, b: &u32| !Buffer::disjoint(a, b, &Bounds::from(100u32..200));
    let over = |a: &u32, b: &u32| !Buffer::disjoint(a, b, &Bounds::from(20u32..40));
    let high = detailed.test(above, &bytes).expect("Assess failed");
    let mid = detailed.test(over, &bytes).expect("Assess failed");
    assert!(!high);
    assert!(mid);
}

#[test]
fn disjoint_decides_every_bound_kind() {
    let below = Buffer::disjoint(&10u32, &30, &Bounds::below(10u32));
    let touch = Buffer::disjoint(&10u32, &30, &Bounds::through(10u32));
    let open = Buffer::disjoint(&10u32, &30, &Bounds::from_start(40u32));
    let full = Buffer::disjoint(&10u32, &30, &Bounds::all());
    let point = Buffer::disjoint(&10u32, &30, &Bounds::closed(20u32, 20));
    assert!(below && open);
    assert!(!touch && !full && !point);
}

#[test]
fn schema_count_sums_every_buffer() {
    let sector = |offset| Sector::new(offset, 16u64).expect("Sector::new failed");
    let detailed = Buffer::Detailed {
        buffer: sector(8),
        count: NonZeroU64::new(3).expect("Count is zero"),
        min: sector(8),
        max: sector(8),
    };
    let compact = Buffer::Compact {
        buffer: sector(24),
        count: NonZeroU64::new(2).expect("Count is zero"),
    };
    let basic = Buffer::Basic {
        buffer: sector(40),
        count: NonZeroU64::new(4).expect("Count is zero"),
    };
    let mut buffers = Buffers::new();
    for buffer in [detailed, compact, basic] {
        assert!(buffers.insert(buffer));
    }
    let mut columns = Entries::new();
    columns.insert(String::from("v"), Column { ty: Type::U32, buffers });
    let schema = Schema { sector: sector(8), columns };
    assert_eq!(schema.count(), 9);
}
