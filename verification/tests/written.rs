//! Buffers give back what they were written with.

use msca::entries::Entries;
use msca::float::{Float32, Float64};
use msca::io::region::Sector;
use msca::manifest::buffer::Buffer;
use msca::manifest::column::{Buffers, Column};
use msca::manifest::schema::Schema;
use msca::nonzero::{NonZeroI16, NonZeroU32, NonZeroU64};
use msca::query::refine::Refine;
use msca::query::source::Query;
use msca::read::outcome::Outcome;
use msca::read::stream::{drain, included};
use msca::types::Type;

const MARGIN: usize = 3;

/// A length-prefixed region, padded to a multiple of eight bytes.
fn region(payload: &[u8]) -> Vec<u8> {
    let mut out = (payload.len() as u64).to_le_bytes().to_vec();
    out.extend_from_slice(payload);
    out.resize(out.len() + (8 - payload.len() % 8) % 8, 0);
    out
}

/// A region of ends and a region of data.
fn sequence(ends: &[u64], data: &[u8]) -> Vec<u8> {
    let ends: Vec<u8> = ends.iter().flat_map(|end| end.to_le_bytes()).collect();
    [region(&ends), region(data)].concat()
}

/// A file that holds `bytes` between other bytes.
fn file(bytes: &[u8]) -> Vec<u8> {
    let mut map = vec![0xaa; MARGIN];
    map.extend_from_slice(bytes);
    map.extend_from_slice(&[0xbb; 5]);
    map
}

/// A schema of one column over `size` bytes that stand for `n` items.
fn schema(ty: Type, size: usize, n: u64, compact: bool) -> Schema {
    let buffer = Sector::new(MARGIN as u64, size as u64).expect("Empty buffer");
    let count = NonZeroU64::new(n).expect("No items");
    let mut buffers = Buffers::new();
    buffers.insert(if compact {
        Buffer::Compact { buffer, count }
    } else {
        Buffer::Basic { buffer, count }
    });
    let mut columns = Entries::new();
    columns.insert(String::from("v"), Column { ty, buffers });
    Schema { sector: Sector::new(0, 1).expect("Empty schema"), columns }
}

#[test]
fn written_fixed_items_read_back() {
    let patterns = [1.5f64.to_bits(), f64::NAN.to_bits(), (-0.0f64).to_bits()];
    let bytes: Vec<u8> = patterns.iter().flat_map(|bits| bits.to_le_bytes()).collect();
    let (map, schema_of) = (file(&bytes), schema(Type::F64, bytes.len(), 3, false));
    let query = Query { mmap: &map, schema: &schema_of };
    let column = query.column::<Float64>("v").expect("Column failed");
    let read: Vec<u64> = included(column.read().expect("Read failed"))
        .collect()
        .into_iter()
        .map(|item| item.expect("Item failed").bits)
        .collect();
    assert_eq!(read, patterns);
    let bytes = 2.25f32.to_bits().to_le_bytes();
    let (map, schema_of) = (file(&bytes), schema(Type::F32, 4, 1, false));
    let query = Query { mmap: &map, schema: &schema_of };
    let outcomes = drain(query.column::<Float32>("v").expect("Column").read().expect("Read"));
    assert!(matches!(outcomes[..], [Outcome::Include(f)] if f.bits == 2.25f32.to_bits()));
    let text = ['a', '\u{10ffff}', '\u{0}'];
    let bytes: Vec<u8> = text.iter().flat_map(|c| (*c as u32).to_le_bytes()).collect();
    let (map, schema_of) = (file(&bytes), schema(Type::Char, 12, 3, false));
    let query = Query { mmap: &map, schema: &schema_of };
    let outcomes = drain(query.column::<char>("v").expect("Column").read().expect("Read"));
    assert!(matches!(
        outcomes[..],
        [Outcome::Include('a'), Outcome::Include('\u{10ffff}'), Outcome::Include('\u{0}')]
    ));
    let bytes: Vec<u8> = [7u32, 0x0102_0304].iter().flat_map(|n| n.to_le_bytes()).collect();
    let (map, schema_of) = (file(&bytes), schema(Type::NZU32, 8, 2, false));
    let query = Query { mmap: &map, schema: &schema_of };
    let outcomes = drain(query.column::<NonZeroU32>("v").expect("Column").read().expect("Read"));
    assert!(matches!(&outcomes[..], [Outcome::Include(a), Outcome::Include(b)]
        if a.get() == 7 && b.get() == 0x0102_0304));
}

#[test]
fn written_items_in_place_read_back() {
    let bytes: Vec<u8> = [-2i16, 0, 300].iter().flat_map(|n| n.to_le_bytes()).collect();
    let (map, schema_of) = (file(&bytes), schema(Type::option(Type::NZI16), 6, 3, false));
    let query = Query { mmap: &map, schema: &schema_of };
    let column = query.column::<Option<NonZeroI16>>("v").expect("Column failed");
    let outcomes = drain(column.read().expect("Read failed"));
    assert!(matches!(&outcomes[..], [
        Outcome::Include(Some(a)),
        Outcome::Include(None),
        Outcome::Include(Some(b)),
    ] if a.get() == -2 && b.get() == 300));
    let bytes: Vec<u8> = [0x11_0000u32, 'z' as u32].iter().flat_map(|n| n.to_le_bytes()).collect();
    let (map, schema_of) = (file(&bytes), schema(Type::option(Type::Char), 8, 2, false));
    let query = Query { mmap: &map, schema: &schema_of };
    let column = query.column::<Option<char>>("v").expect("Column failed");
    let outcomes = drain(column.read().expect("Read failed"));
    assert!(matches!(outcomes[..], [Outcome::Include(None), Outcome::Include(Some('z'))]));
}

#[test]
fn written_bits_and_optional_items_read_back() {
    let bits = [true, false, false, true, true, false, true, false, true, true];
    let bytes = [0b0101_1001u8, 0b0000_0011];
    let (map, schema_of) = (file(&bytes), schema(Type::Bool, 2, 10, false));
    let query = Query { mmap: &map, schema: &schema_of };
    let column = query.column::<bool>("v").expect("Column failed");
    let read: Vec<bool> = included(column.read().expect("Read failed"))
        .collect()
        .into_iter()
        .map(|item| item.expect("Item failed"))
        .collect();
    assert_eq!(read, bits);
    let data: Vec<u8> = [5u16, 9].iter().flat_map(|n| n.to_le_bytes()).collect();
    let bytes = [region(&[0b101]), region(&data)].concat();
    let (map, schema_of) = (file(&bytes), schema(Type::option(Type::U16), bytes.len(), 3, false));
    let query = Query { mmap: &map, schema: &schema_of };
    let column = query.column::<Option<u16>>("v").expect("Column failed");
    let outcomes = drain(column.read().expect("Read failed"));
    assert!(matches!(
        outcomes[..],
        [Outcome::Include(Some(5)), Outcome::Include(None), Outcome::Include(Some(9))]
    ));
    let bytes = region(&[0]);
    let (map, schema_of) = (file(&bytes), schema(Type::option(Type::U16), bytes.len(), 4, false));
    let query = Query { mmap: &map, schema: &schema_of };
    let column = query.column::<Option<u16>>("v").expect("Column failed");
    let outcomes = drain(column.read().expect("Read failed"));
    assert_eq!(outcomes.len(), 4);
    assert!(outcomes.iter().all(|outcome| matches!(outcome, Outcome::Include(None))));
}

#[test]
fn written_texts_read_back() {
    let bytes = sequence(&[2, 2, 6], "ab\u{e4}cd".as_bytes());
    let (map, schema_of) = (file(&bytes), schema(Type::String, bytes.len(), 3, false));
    let query = Query { mmap: &map, schema: &schema_of };
    let column = query.column::<String>("v").expect("Column failed");
    let read: Vec<String> = included(column.read().expect("Read failed"))
        .collect()
        .into_iter()
        .map(|item| item.expect("Item failed"))
        .collect();
    assert_eq!(read, ["ab", "", "\u{e4}cd"]);
    let bytes = sequence(&[2, u64::MAX, 5], b"abcde");
    let ty = Type::option(Type::String);
    let (map, schema_of) = (file(&bytes), schema(ty, bytes.len(), 3, false));
    let query = Query { mmap: &map, schema: &schema_of };
    let column = query.column::<Option<String>>("v").expect("Column failed");
    let read: Vec<Option<String>> = included(column.read().expect("Read failed"))
        .collect()
        .into_iter()
        .map(|item| item.expect("Item failed"))
        .collect();
    assert_eq!(read, [Some(String::from("ab")), None, Some(String::from("cde"))]);
}

#[test]
fn written_lists_read_back() {
    let data = sequence(&[1, 3, 6], b"abbccc");
    let bytes = sequence(&[2, 2, 3], &data);
    let ty = Type::sequence(Type::String);
    let (map, schema_of) = (file(&bytes), schema(ty, bytes.len(), 3, false));
    let query = Query { mmap: &map, schema: &schema_of };
    let column = query.column::<Vec<String>>("v").expect("Column failed");
    let read: Vec<Vec<String>> = included(column.read().expect("Read failed"))
        .collect()
        .into_iter()
        .map(|item| item.expect("Item failed"))
        .collect();
    assert_eq!(read, [vec!["a", "bb"], vec![], vec!["ccc"]]);
    let data: Vec<u8> = [1u16, 2, 3].iter().flat_map(|n| n.to_le_bytes()).collect();
    let bytes = sequence(&[1, u64::MAX, 3], &data);
    let ty = Type::option(Type::sequence(Type::U16));
    let (map, schema_of) = (file(&bytes), schema(ty, bytes.len(), 3, false));
    let query = Query { mmap: &map, schema: &schema_of };
    let column = query.column::<Option<Vec<u16>>>("v").expect("Column failed");
    let read: Vec<Option<Vec<u16>>> = included(column.read().expect("Read failed"))
        .collect()
        .into_iter()
        .map(|item| item.expect("Item failed"))
        .collect();
    assert_eq!(read, [Some(vec![1]), None, Some(vec![2, 3])]);
}

#[test]
fn compact_buffers_repeat_what_they_were_written_with() {
    let bytes = sequence(&[3], b"abc");
    let (map, schema_of) = (file(&bytes), schema(Type::String, bytes.len(), 2, true));
    let query = Query { mmap: &map, schema: &schema_of };
    let column = query.column::<String>("v").expect("Column failed");
    let read: Vec<String> = included(column.read().expect("Read failed"))
        .collect()
        .into_iter()
        .map(|item| item.expect("Item failed"))
        .collect();
    assert_eq!(read, ["abc", "abc"]);
}
