//! Edge cases and errors.

use msca::bounds::Bounds;
use msca::entries::Entries;
use msca::error::Error as CrateError;
use msca::float::{Float32, Float64};
use msca::io::deserialize::Deserialize;
use msca::io::error::{Error, NumberError};
use msca::io::region::{take_sized, to_index, Sector};
use msca::manifest::buffer::Buffer;
use msca::manifest::column::{Buffers, Column as Descriptor};
use msca::manifest::error::Error as ManifestError;
use msca::manifest::schema::Schema;
use msca::manifest::segment::{unwrap, verify, wrap};
use msca::manifest::{number as manifest_number, Manifest};
use msca::nonzero::{NonZeroI16, NonZeroU32, NonZeroU64};
use msca::number;
use msca::order::Ordered;
use msca::primitive::Primitive;
use msca::query::error::Error as QueryError;
use msca::query::items::Items;
use msca::query::mask::Mask;
use msca::query::refine::{nth, Join, Refine};
use msca::query::resolve::{Based, Resolve};
use msca::query::source::Query;
use msca::query::terminal::intern;
use msca::read::decoder::{Bits, Cursor, Decoder, Sequence};
use msca::read::outcome::Outcome;
use msca::read::rows::{Rows, Unfiltered};
use msca::read::stream::{drain, excluded, included, Listed, Stream};
use msca::schema::Node;
use msca::types::{Type, Unfold};
use std::collections::HashMap;
use xxhash_rust::xxh3::Xxh3Builder;

fn sector(offset: u64, size: u64) -> Sector {
    Sector::new(offset, size).expect("Sector::new failed")
}

fn count(n: u64) -> NonZeroU64 {
    NonZeroU64::new(n).expect("Zero rows")
}

fn encode(items: &[u32]) -> Vec<u8> {
    items.iter().flat_map(|i| i.to_le_bytes()).collect()
}

fn schema(columns: Vec<(&str, Type, Vec<Buffer>)>) -> Schema {
    let mut entries = Entries::new();
    for (name, ty, list) in columns {
        let mut buffers = Buffers::new();
        for buffer in list {
            buffers.insert(buffer);
        }
        entries.insert(String::from(name), Descriptor { ty, buffers });
    }
    Schema { sector: sector(0, 1), columns: entries }
}

fn basic(offset: u64, size: u64, n: u64) -> Buffer {
    Buffer::Basic { buffer: sector(offset, size), count: count(n) }
}

fn compact(offset: u64, size: u64, n: u64) -> Buffer {
    Buffer::Compact { buffer: sector(offset, size), count: count(n) }
}

fn kept<S: Stream>(stream: S) -> Vec<S::Item> {
    included(stream).collect().into_iter().map(|i| i.expect("Item failed")).collect()
}

fn words(ends: &[u64]) -> Vec<u8> {
    ends.iter().flat_map(|i| i.to_le_bytes()).collect()
}

// ---------------------------------------------------------------- decoding

#[test]
fn integers_are_little_endian() {
    let bytes = [0x01u8, 0x02, 0x03, 0x04, 0xff];
    let mut src = bytes.as_slice();
    assert_eq!(u32::deserialize(&mut src).expect("u32"), 0x0403_0201);
    assert_eq!(i8::deserialize(&mut src).expect("i8"), -1);
    assert!(src.is_empty());
    let mut src = [0xfeu8, 0xff].as_slice();
    assert_eq!(i16::deserialize(&mut src).expect("i16"), -2);
    let bytes = i128::MIN.to_le_bytes();
    let mut src = bytes.as_slice();
    assert_eq!(i128::deserialize(&mut src).expect("i128"), i128::MIN);
}

#[test]
fn short_source_is_truncated_and_not_consumed() {
    let bytes = [1u8, 2, 3];
    let mut src = bytes.as_slice();
    let error = u32::deserialize(&mut src).expect_err("Short source accepted");
    assert!(matches!(error, Error::Truncated { expected: 4, actual: 3 }));
    assert_eq!(src, bytes);
}

#[test]
fn zero_is_no_nonzero_integer_but_an_absent_one() {
    let bytes = [0u8; 4];
    let error = NonZeroU32::deserialize(&mut bytes.as_slice()).expect_err("Zero accepted");
    assert!(matches!(error, Error::Number(NumberError::Zero)));
    let absent = Option::<NonZeroU32>::deserialize(&mut bytes.as_slice()).expect("Decode failed");
    assert_eq!(absent, None);
    let present = Option::<NonZeroI16>::deserialize(&mut [0xffu8, 0xff].as_slice());
    assert_eq!(present.expect("Decode failed"), NonZeroI16::new(-1));
}

#[test]
fn characters_are_scalar_values() {
    let bytes = ('é' as u32).to_le_bytes();
    assert_eq!(char::deserialize(&mut bytes.as_slice()).expect("char"), 'é');
    let bytes = 0xd800u32.to_le_bytes();
    assert!(char::deserialize(&mut bytes.as_slice()).is_err());
    let bytes = 0x11_0000u32.to_le_bytes();
    let absent = Option::<char>::deserialize(&mut bytes.as_slice()).expect("Option<char>");
    assert_eq!(absent, None);
    let bytes = ('z' as u32).to_le_bytes();
    let present = Option::<char>::deserialize(&mut bytes.as_slice()).expect("Option<char>");
    assert_eq!(present, Some('z'));
}

#[test]
fn text_must_be_utf8() {
    let text = String::deserialize(&mut "héllo".as_bytes()).expect("String");
    assert_eq!(text, "héllo");
    let error = String::deserialize(&mut [0xffu8].as_slice()).expect_err("Invalid text accepted");
    assert!(matches!(error, Error::Utf8));
}

#[test]
fn regions_are_length_prefixed_and_padded() {
    let mut bytes = 3u64.to_le_bytes().to_vec();
    bytes.extend_from_slice(b"abc\0\0\0\0\0rest");
    let mut src = bytes.as_slice();
    assert_eq!(take_sized(&mut src).expect("Region failed"), b"abc");
    assert_eq!(src, b"rest");
    let mut src = [0u8; 7].as_slice();
    let error = take_sized(&mut src).expect_err("Short prefix accepted");
    assert!(matches!(error, Error::Truncated { expected: 8, actual: 7 }));
    let bytes = 9u64.to_le_bytes();
    let error = take_sized(&mut bytes.as_slice()).expect_err("Short region accepted");
    assert!(matches!(error, Error::Truncated { expected: 9, actual: 0 }));
}

#[test]
fn sectors_lie_within_the_map() {
    assert_eq!(Sector::new(3, 0), Err(NumberError::Zero));
    let map = [0u8, 1, 2, 3, 4];
    assert_eq!(sector(1, 3).slice(&map).expect("Slice failed"), [1, 2, 3]);
    let error = sector(3, 4).slice(&map).expect_err("Sector past the end accepted");
    assert!(matches!(error, Error::Truncated { expected: 4, actual: 2 }));
    let error = sector(9, 1).slice(&map).expect_err("Sector past the end accepted");
    assert!(matches!(error, Error::Truncated { expected: 1, actual: 0 }));
    assert_eq!(to_index(7).expect("Index failed"), 7);
    assert!(sector(1, 3) < sector(2, 1));
    assert!(sector(1, 3) != sector(1, 2));
}

#[test]
fn bits_run_from_the_least_significant_on() {
    let bytes = [0b1000_0001u8, 0b0000_0010];
    let bits = Bits { bytes: &bytes };
    assert_eq!(bits.get(7), Some(true));
    assert_eq!(bits.get(8), Some(false));
    assert_eq!(bits.get(9), Some(true));
    assert_eq!(bits.get(16), None);
    let mut cursor = bits.iter().ok().expect("Iter failed");
    let mut seen = Vec::new();
    while let Some(bit) = cursor.next() {
        seen.push(bit.expect("Bit failed"));
    }
    assert_eq!(seen.len(), 16);
    assert_eq!(seen.iter().filter(|b| **b).count(), 3);
    assert!(seen[0] && seen[7] && seen[9]);
    let error = Bits { bytes: &[] }.one().expect_err("Bit of nothing");
    assert!(matches!(error, Error::Truncated { expected: 1, actual: 0 }));
}

#[test]
fn texts_end_where_they_say() {
    let ends = words(&[2, 2, 5]);
    let src = Sequence { ends: &ends, data: b"abcde" };
    let mut cursor = Decoder::<String>::iter(src).ok().expect("Iter failed");
    let mut pull = || Cursor::<String>::next(&mut cursor);
    assert_eq!(pull().expect("First").expect("Text"), "ab");
    assert_eq!(pull().expect("Second").expect("Text"), "");
    assert_eq!(pull().expect("Third").expect("Text"), "cde");
    assert!(pull().is_none());
}

#[test]
fn bad_ends_are_errors_and_reading_goes_on() {
    let ends = words(&[3, 1, 9, 5]);
    let src = Sequence { ends: &ends, data: b"abcde" };
    let mut cursor = Decoder::<&str>::iter(src).ok().expect("Iter failed");
    let mut pull = || Cursor::<&str>::next(&mut cursor);
    assert_eq!(pull().expect("First").expect("Text"), "abc");
    let back = pull().expect("Second").expect_err("End before the start accepted");
    assert!(matches!(back, Error::Number(NumberError::Zero)));
    let past = pull().expect("Third").expect_err("End past the data accepted");
    assert!(matches!(past, Error::Truncated { expected: 6, actual: 2 }));
    assert_eq!(pull().expect("Fourth").expect("Text"), "de");
}

#[test]
fn absent_texts_have_the_largest_end() {
    let ends = words(&[1, u64::MAX, 3]);
    let src = Sequence { ends: &ends, data: b"abc" };
    let mut cursor = Decoder::<Option<String>>::iter(src).ok().expect("Iter failed");
    let mut pull = || Cursor::<Option<String>>::next(&mut cursor).map(|i| i.expect("Text"));
    assert_eq!(pull(), Some(Some(String::from("a"))));
    assert_eq!(pull(), Some(None));
    assert_eq!(pull(), Some(Some(String::from("bc"))));
    assert_eq!(pull(), None);
}

#[test]
fn lists_take_the_elements_between_their_ends() {
    let ends = words(&[2, 2, u64::MAX, 3]);
    let data: Vec<u8> = [7u16, 8, 9].iter().flat_map(|i| i.to_le_bytes()).collect();
    let src = Sequence { ends: &ends, data: &data };
    let mut cursor = Decoder::<Option<Vec<u16>>>::iter(src).ok().expect("Iter failed");
    let mut pull = || Cursor::<Option<Vec<u16>>>::next(&mut cursor).map(|i| i.expect("List"));
    assert_eq!(pull(), Some(Some(vec![7, 8])));
    assert_eq!(pull(), Some(Some(vec![])));
    assert_eq!(pull(), Some(None));
    assert_eq!(pull(), Some(Some(vec![9])));
    assert_eq!(pull(), None);
    let ends = words(&[2, 1]);
    let src = Sequence { ends: &ends, data: &data };
    let mut cursor = Decoder::<Vec<u16>>::iter(src).ok().expect("Iter failed");
    let mut pull = || Cursor::<Vec<u16>>::next(&mut cursor);
    assert_eq!(pull().expect("First").expect("List"), [7, 8]);
    let back = pull().expect("Second").expect_err("End before the start accepted");
    assert!(matches!(back, Error::Number(NumberError::Zero)));
}

#[test]
fn an_empty_source_holds_no_single_item() {
    let src = Sequence { ends: &[], data: &[] };
    let error = Decoder::<String>::one(src).expect_err("Item of nothing");
    assert!(matches!(error, Error::Truncated { expected: 1, actual: 0 }));
}

// ---------------------------------------------------------------- streams

#[test]
fn included_and_excluded_partition_a_stream() {
    let stream = || Listed {
        outcomes: vec![
            Outcome::Include(1u32),
            Outcome::Absent,
            Outcome::Error(Error::Utf8),
            Outcome::Exclude(2),
        ],
    };
    let kept = included(stream()).collect().len();
    let rejected = excluded(stream()).len();
    assert_eq!(kept + rejected + 1, 4 + 1); // one absent slot, one error in both
    assert_eq!(drain(stream()).len(), 4);
}

#[test]
fn interning_fails_past_the_largest_index() {
    let outcomes = |n: u32| (0..n).map(Outcome::Include).collect();
    let most = included(Listed { outcomes: outcomes(256) });
    let map: HashMap<u32, u8, Xxh3Builder> = intern(most).expect("Interning failed");
    assert_eq!(map.len(), 256);
    assert_eq!(map[&255], 255);
    let more = included(Listed { outcomes: outcomes(257) });
    let error = intern::<_, u8>(more).expect_err("Index past the largest accepted");
    assert!(matches!(error, Error::Number(NumberError::Zero)));
    let failed = vec![Outcome::Include(1u32), Outcome::Error(Error::Utf8)];
    let error = intern::<_, u8>(included(Listed { outcomes: failed })).expect_err("Error dropped");
    assert!(matches!(error, Error::Utf8));
}

#[test]
fn interning_counts_first_occurrences_alone() {
    let copies: Vec<Outcome<u32>> = (0..300).map(|_| Outcome::Include(7)).collect();
    let map: HashMap<u32, u8, Xxh3Builder> =
        intern(included(Listed { outcomes: copies })).expect("Interning failed");
    assert_eq!(map.len(), 1);
    assert_eq!(map[&7], 0);
    let again: Vec<Outcome<u32>> = (0..256).chain(0..256).map(Outcome::Include).collect();
    let map: HashMap<u32, u8, Xxh3Builder> =
        intern(included(Listed { outcomes: again })).expect("Interning failed");
    assert_eq!(map.len(), 256);
    assert_eq!(map[&255], 255);
    let late = (0..257u32).map(|i| Outcome::Include(i / 256)).collect();
    let error = intern::<_, u8>(included(Listed { outcomes: late })).expect_err("Index accepted");
    assert!(matches!(error, Error::Number(NumberError::Zero)));
}

#[test]
fn a_buffer_that_cannot_be_opened_holds_its_error() {
    let bytes = encode(&[1, 2]);
    let (first, second) = (basic(0, 64, 3), basic(0, 8, 2));
    let items = drain(Items::<u32>::new(vec![&first, &second], &bytes));
    assert_eq!(items.len(), 3);
    assert!(matches!(items[0], Outcome::Error(Error::Truncated { expected: 64, actual: 8 })));
    assert!(matches!(items[1], Outcome::Include(1)));
    assert!(matches!(items[2], Outcome::Include(2)));
}

// ---------------------------------------------------------------- descriptors

#[test]
fn buffers_are_ordered_by_location_and_distinct() {
    let mut buffers = Buffers::new();
    assert!(buffers.insert(basic(8, 4, 1)));
    assert!(buffers.insert(basic(0, 4, 2)));
    assert!(!buffers.insert(basic(8, 9, 3)));
    assert!(buffers.insert(basic(4, 4, 4)));
    let counts: Vec<u64> = (0..buffers.len()).map(|i| buffers.get(i).count()).collect();
    assert_eq!(counts, [2, 4, 1]);
    assert!(basic(0, 4, 1) == compact(0, 4, 9));
    assert!(basic(0, 4, 1) < basic(1, 4, 1));
}

#[test]
fn entries_are_ordered_by_name_and_replaced() {
    let mut entries = Entries::new();
    assert!(entries.insert(String::from("b"), 1).is_none());
    assert!(entries.insert(String::from("a"), 2).is_none());
    assert!(entries.insert(String::from("ab"), 3).is_none());
    assert_eq!(entries.insert(String::from("b"), 4), Some(1));
    let names: Vec<&str> = (0..entries.len()).map(|i| entries.name(i)).collect();
    assert_eq!(names, ["a", "ab", "b"]);
    assert_eq!(entries.get("b"), Some(&4));
    assert_eq!(entries.get("ab"), Some(&3));
    assert_eq!(entries.get("c"), None);
    assert_eq!(*entries.at(0), 2);
}

#[test]
fn manifest_entries_are_found_once_registered() {
    let mut manifest = Manifest::default();
    let missing = manifest.schema("rows").expect_err("Missing schema found");
    assert_eq!(missing.message(), "Manifest entry not found → rows");
    manifest.register(String::from("rows"), schema(vec![])).expect("Registration failed");
    assert!(manifest.schema("rows").is_ok());
    let taken = manifest.register(String::from("rows"), schema(vec![])).expect_err("Taken name");
    assert!(matches!(taken, ManifestError::Collision { .. }));
    assert_eq!(taken.message(), "Manifest entry collision → rows");
}

#[test]
fn columns_are_compared_and_checked_by_type() {
    let column = Descriptor::from(Type::option(Type::U8));
    assert_eq!(column.size(), 0);
    assert_eq!(column.count(), 0);
    assert!(column.exact::<Option<u8>>().is_ok());
    assert!(matches!(column.exact::<u8>(), Err(QueryError::Type { .. })));
    assert!(column == Descriptor::from(Type::option(Type::U8)));
    assert!(column != Descriptor::from(Type::U8));
    let name = String::from("a");
    assert_eq!(Descriptor::map((&name, &column)).0, "a");
    assert!(Vec::<Option<String>>::unfold() == Type::sequence(Type::option(Type::String)));
}

#[test]
fn exact_tests_decide_compact_buffers_alone() {
    let bytes = encode(&[7]);
    let test = |op: &u32| *op == 7;
    assert!(compact(0, 4, 2).test_exact::<u32, u32, _>(&test, &bytes).expect("Test failed"));
    let test = |op: &u32| *op == 8;
    assert!(!compact(0, 4, 2).test_exact::<u32, u32, _>(&test, &bytes).expect("Test failed"));
    assert!(basic(0, 4, 1).test_exact::<u32, u32, _>(&test, &bytes).expect("Test failed"));
    assert!(compact(0, 9, 2).test_exact::<u32, u32, _>(&test, &bytes).is_err());
}

#[test]
fn segments_frame_a_body() {
    assert_eq!(wrap(1, &[]), Err(NumberError::Convert));
    let segment = wrap(5, b"xyz").expect("Wrap failed");
    assert_eq!(segment.len(), 9 + 3 + 8);
    assert_eq!(segment[0], 5);
    assert_eq!(segment[1..9], 3u64.to_le_bytes());
    assert_eq!(&segment[9..12], b"xyz");
    let sum = xxhash_rust::xxh3::xxh3_64(&segment[..12]);
    assert_eq!(segment[12..], sum.to_le_bytes());
    assert_eq!(unwrap(&segment).expect("Unwrap failed"), b"xyz");
    let mut short = b"abcd".to_vec();
    short.extend_from_slice(&xxhash_rust::xxh3::xxh3_64(b"abcd").to_le_bytes());
    assert_eq!(verify(&short).expect("Verify failed"), b"abcd");
    let error = unwrap(&short).expect_err("Missing header accepted");
    assert!(matches!(error, Error::Truncated { expected: 9, actual: 12 }));
}

#[test]
fn numbers_name_their_primitive() {
    let number = number::Number { kind: number::Kind::Int, size: 4 };
    assert_eq!(number.type_id(), Primitive::I32);
    let number = number::Number { kind: number::Kind::Float, size: 8 };
    assert_eq!(number.type_id(), Primitive::F64);
    let number = manifest_number::Number { kind: manifest_number::Kind::UInt, bytes: 2 };
    assert_eq!(number.type_id(), Primitive::U16);
}

#[test]
fn floats_are_ordered_where_they_are_numbers() {
    let float = |x: f64| Float64 { bits: x.to_bits() };
    assert!(float(-1.5).less(&float(2.0)));
    assert!(float(-0.0).at_most(&float(0.0)) && float(0.0).at_most(&float(-0.0)));
    assert!(!float(f64::NAN).at_most(&float(1.0)) && !float(1.0).at_most(&float(f64::NAN)));
    assert!(float(f64::NEG_INFINITY).less(&float(f64::MIN)));
    let small = |x: f32| Float32 { bits: x.to_bits() };
    assert!(small(-2.0).less(&small(-1.0)) && !small(1.0).less(&small(1.0)));
}

#[test]
fn errors_have_their_text() {
    assert_eq!(CrateError::Version(255).message(), "unrecognised version: 255");
    assert_eq!(CrateError::Column(String::from("a")).message(), "column not found: a");
    assert!(CrateError::Magic.source().is_none());
    let missing = QueryError::Column { name: String::from("v") };
    assert_eq!(missing.message_with("", ""), "Column 'v' not found");
    let mismatch = QueryError::Type { expect: Type::U8, actual: Type::U16 };
    assert_eq!(mismatch.message_with("U8", "U16"), "Type error → U8 ≠ U16");
    let join = QueryError::Join.message_with("", "");
    assert_eq!(join, "Join error → handles from different queries");
    let number = QueryError::from(Error::Number(NumberError::Zero));
    assert!(matches!(number, QueryError::Number(NumberError::Zero)));
    assert!(matches!(QueryError::from(Error::Utf8), QueryError::Io(Error::Utf8)));
    let convert = u8::try_from(300u32).expect_err("300 fits");
    assert!(matches!(QueryError::from(convert), QueryError::Number(NumberError::Convert)));
    let io = QueryError::from(std::io::Error::other("boom"));
    assert!(matches!(io, QueryError::Io(Error::Io(_))));
    let raised: Result<(), QueryError> = Result::from(QueryError::Join);
    assert!(matches!(raised, Err(QueryError::Join)));
}

// ---------------------------------------------------------------- queries

/// A composite item rebuilt from one column.
#[derive(Debug, PartialEq, Eq, Hash)]
struct Row {
    v: u32,
}

struct Reader<'a> {
    next: Box<dyn FnMut() -> Option<Outcome<u32>> + 'a>,
}

impl<'a> Rows for Reader<'a> {
    type Item = Row;

    fn next(&mut self) -> Option<Outcome<Row>> {
        Some(match (self.next)()? {
            Outcome::Include(v) => Outcome::Include(Row { v }),
            Outcome::Exclude(v) => Outcome::Exclude(Row { v }),
            Outcome::Absent => Outcome::Absent,
            Outcome::Error(e) => Outcome::Error(e),
        })
    }
}

impl<'a> Unfiltered<'a> for Row {
    type Reader = Reader<'a>;

    fn unfiltered(query: Query<'a>) -> Result<Reader<'a>, QueryError> {
        let mut stream = query.column::<u32>("v")?.read()?;
        Ok(Reader { next: Box::new(move || stream.next()) })
    }

    fn nth(query: Query<'a>, n: usize) -> Result<Reader<'a>, QueryError> {
        let mut stream = query.column::<u32>("v")?.skip(n).take(1).read()?;
        Ok(Reader { next: Box::new(move || stream.next()) })
    }
}

#[test]
fn composite_items_are_read_by_place_and_interned() {
    let mmap = encode(&[10, 20, 10, 30]);
    let schema = schema(vec![("v", Type::U32, vec![basic(0, 8, 2), basic(8, 8, 2)])]);
    let query = Query { mmap: &mmap, schema: &schema };
    assert_eq!(query.count(), 4);
    assert_eq!(query.nth::<Row>(3).expect("nth failed"), Some(Row { v: 30 }));
    assert_eq!(query.nth::<Row>(4).expect("nth failed"), None);
    let map = query.into_hash_map::<Row, u8>().expect("Map failed");
    assert_eq!(map.len(), 3);
    assert_eq!(map[&Row { v: 10 }], 0);
    assert_eq!(map[&Row { v: 30 }], 3);
    let mut rows = query.rows::<Row>().ok().expect("Rows failed");
    assert!(matches!(rows.next(), Some(Outcome::Include(Row { v: 10 }))));
}

#[test]
fn composite_copies_take_one_place() {
    let mmap = encode(&[5; 300]);
    let schema = schema(vec![("v", Type::U32, vec![basic(0, 1200, 300)])]);
    let query = Query { mmap: &mmap, schema: &schema };
    let map = query.into_hash_map::<Row, u8>().expect("Map failed");
    assert_eq!(map.len(), 1);
    assert_eq!(map[&Row { v: 5 }], 0);
}

#[test]
fn an_empty_window_excludes_every_buffer() {
    let mmap = encode(&[1, 2, 3, 4]);
    let buffers = vec![basic(0, 8, 2), basic(8, 4, 1), basic(12, 4, 1)];
    let schema = schema(vec![("v", Type::U32, buffers)]);
    let query = Query { mmap: &mmap, schema: &schema };
    let column = || query.column::<u32>("v").expect("Column failed");
    for skip in [0usize, 1, 2, 3] {
        let empty = column().skip(skip).take(0);
        let mut mask = empty.src().mask();
        empty.resolve(&mut mask).ok().expect("Resolve failed");
        assert!((0..3).all(|i| !mask.get(i)));
        let one = column().skip(skip).take(1);
        let mut mask = one.src().mask();
        one.resolve(&mut mask).ok().expect("Resolve failed");
        assert_eq!((0..3).filter(|i| mask.get(*i)).count(), 1);
    }
    let empty = column().take(0);
    let mut mask = empty.src().mask();
    empty.resolve(&mut mask).ok().expect("Resolve failed");
    assert!((0..3).all(|i| !mask.get(i)));
}

#[test]
fn windows_agree_with_the_whole_column() {
    let items: Vec<u32> = (0..10).collect();
    let mmap = encode(&items);
    let buffers = || vec![basic(0, 12, 3), basic(12, 4, 1), basic(16, 24, 6)];
    let schema = schema(vec![("v", Type::U32, buffers())]);
    let query = Query { mmap: &mmap, schema: &schema };
    let column = || query.column::<u32>("v").expect("Column failed");
    for skip in 0..12usize {
        let rest: Vec<u32> = items.iter().copied().skip(skip).collect();
        assert_eq!(kept(column().skip(skip).read().expect("Read failed")), rest);
        let item = nth(column(), skip).expect("nth failed");
        assert_eq!(item, items.get(skip).copied());
        for take in 0..12usize {
            let window: Vec<u32> = rest.iter().copied().take(take).collect();
            let stream = column().skip(skip).take(take).read().expect("Read failed");
            assert_eq!(kept(stream), window);
        }
        let first: Vec<u32> = items.iter().copied().take(skip).collect();
        assert_eq!(kept(column().take(skip).read().expect("Read failed")), first);
    }
    let far = column().skip(usize::MAX).take(usize::MAX).read().expect("Read failed");
    assert!(kept(far).is_empty());
    assert_eq!(kept(column().take(usize::MAX).read().expect("Read failed")), items);
}

#[test]
fn filters_are_conjunctive_in_any_order() {
    let mmap = encode(&[1, 5, 9, 5, 7]);
    let detailed = Buffer::Detailed {
        buffer: sector(0, 12),
        count: count(3),
        min: sector(0, 4),
        max: sector(8, 4),
    };
    let schema = schema(vec![("v", Type::U32, vec![detailed, basic(12, 8, 2)])]);
    let query = Query { mmap: &mmap, schema: &schema };
    let column = || query.column::<u32>("v").expect("Column failed");
    let range = || Bounds::from(5u32..9);
    let one = column().range(range()).filter(|i: &u32| i % 7 != 0);
    let two = column().filter(|i: &u32| i % 7 != 0).range(range());
    assert_eq!(kept(one.read().expect("Read failed")), [5, 5]);
    assert_eq!(kept(two.read().expect("Read failed")), [5, 5]);
    let outcomes = drain(column().range(range()).read().expect("Read failed"));
    assert!(matches!(outcomes[0], Outcome::Exclude(1)));
    let above = column().range(Bounds::from_start(8u32)).read().expect("Read failed");
    assert_eq!(kept(above), [9]);
}

#[test]
fn presence_narrows_compact_optional_buffers() {
    let region = |payload: &[u8]| {
        let mut out = (payload.len() as u64).to_le_bytes().to_vec();
        out.extend_from_slice(payload);
        out.resize(out.len() + (8 - payload.len() % 8) % 8, 0);
        out
    };
    let mut mmap = region(&[1]);
    mmap.extend_from_slice(&region(&encode(&[20])));
    let present = mmap.len() as u64;
    mmap.extend_from_slice(&region(&[0]));
    let absent = mmap.len() as u64 - present;
    let buffers = vec![compact(0, present, 2), compact(present, absent, 3)];
    let schema = schema(vec![("v", Type::option(Type::U32), buffers)]);
    let query = Query { mmap: &mmap, schema: &schema };
    let column = || query.column::<Option<u32>>("v").expect("Column failed");
    assert_eq!(kept(column().read().expect("Read failed")).len(), 5);
    assert_eq!(kept(column().is_some().read().expect("Read failed")), [20, 20]);
    assert_eq!(kept(column().is_some().eq(20u32).read().expect("Read failed")), [20, 20]);
    assert!(kept(column().is_some().eq(1u32).read().expect("Read failed")).is_empty());
    assert_eq!(kept(column().is_none().read().expect("Read failed")), [None, None, None]);
    assert_eq!(kept(column().eq(20u32).read().expect("Read failed")), [Some(20), Some(20)]);
}

#[test]
fn keys_are_collected_in_order() {
    let mmap = encode(&[30, 10, 20, 10]);
    let schema = schema(vec![("v", Type::U32, vec![basic(0, 16, 4)])]);
    let query = Query { mmap: &mmap, schema: &schema };
    let column = || query.column::<u32>("v").expect("Column failed");
    assert_eq!(column().into_btree_set().expect("Set failed"), [10, 20, 30]);
    let some = column().ne(20u32).into_btree_set().expect("Set failed");
    assert_eq!(some, [10, 30]);
    let failed = encode(&[1]);
    let query = Query { mmap: &failed, schema: &schema };
    let error = query.column::<u32>("v").expect("Column failed").into_btree_set();
    assert!(matches!(error, Err(Error::Truncated { expected: 16, actual: 4 })));
    let error = query.column::<u32>("v").expect("Column failed").into_hash_set();
    assert!(matches!(error, Err(Error::Truncated { .. })));
}

#[test]
fn joins_of_one_column_are_complements() {
    let mmap = encode(&[1, 2, 3, 4, 3]);
    let left = basic(0, 12, 3);
    let right = basic(12, 8, 2);
    let schema = schema(vec![("a", Type::U32, vec![left]), ("b", Type::U32, vec![right])]);
    let query = Query { mmap: &mmap, schema: &schema };
    let a = || query.column::<u32>("a").expect("Column failed");
    let b = || query.column::<u32>("b").expect("Column failed");
    assert_eq!(kept(a().semi_join(b()).read().expect("Read failed")), [3]);
    assert_eq!(kept(a().anti_join(b()).read().expect("Read failed")), [1, 2]);
    assert_eq!(kept(a().none_of(vec![2u32, 3]).read().expect("Read failed")), [1]);
}

#[test]
fn symmetric_differences_retain_the_buffers_of_unions() {
    let mmap = encode(&[1, 2, 3, 4]);
    let a = vec![compact(0, 4, 1), compact(4, 4, 1)];
    let b = vec![compact(8, 4, 1), compact(12, 4, 1)];
    let schema = schema(vec![("a", Type::U32, a), ("b", Type::U32, b)]);
    let query = Query { mmap: &mmap, schema: &schema };
    let part = |name: &str, item: u32| query.column::<u32>(name).expect("Column failed").eq(item);
    let either = part("a", 1).xor(part("b", 4)).ok().expect("xor failed");
    let mut mask = either.src().mask();
    either.resolve(&mut mask).ok().expect("Resolve failed");
    assert!(mask.get(0) && mask.get(1));
    let neither = part("a", 9).or(part("b", 9)).ok().expect("or failed");
    let mut mask = neither.src().mask();
    neither.resolve(&mut mask).ok().expect("Resolve failed");
    assert!(!mask.get(0) && !mask.get(1));
    let other = Query { mmap: &mmap, schema: &schema };
    assert!(query == other);
}

#[test]
fn masks_are_combined_bit_by_bit() {
    let mut mask = Mask::full(70);
    assert_eq!(mask.len(), 70);
    mask.exclude(3);
    let mut other = mask.duplicate();
    other.exclude_from(65);
    assert!(other.get(64) && !other.get(65) && !other.get(69) && !other.get(70));
    mask.differ(&other);
    let left: Vec<usize> = (0..70).filter(|i| mask.get(*i)).collect();
    assert_eq!(left, [65, 66, 67, 68, 69]);
    mask.unite(&other);
    assert_eq!((0..70).filter(|i| mask.get(*i)).count(), 69);
    assert!(!mask.get(3));
}

#[test]
fn excluded_buffers_are_not_tested() {
    let mmap = encode(&[7]);
    let buffers = vec![compact(0, 4, 1), compact(4, 64, 2)];
    let schema = schema(vec![("v", Type::U32, buffers)]);
    let query = Query { mmap: &mmap, schema: &schema };
    let column = || query.column::<u32>("v").expect("Column failed");
    let error = column().eq(7u32).read().err();
    assert!(matches!(error, Some(Error::Truncated { expected: 64, actual: 0 })));
    let stream = column().take(1).eq(7u32).read().expect("An excluded buffer was tested");
    assert_eq!(kept(stream), [7]);
}

#[test]
fn a_failing_first_part_leaves_the_mask_of_a_union() {
    let mmap = encode(&[1, 2, 3]);
    let broken = vec![compact(0, 4, 1), compact(64, 4, 1)];
    let sound = vec![compact(4, 4, 1), compact(8, 4, 1)];
    let schema = schema(vec![("a", Type::U32, broken), ("b", Type::U32, sound)]);
    let query = Query { mmap: &mmap, schema: &schema };
    let part = |name: &str| query.column::<u32>(name).expect("Column failed").eq(9u32);
    let either = part("a").or(part("b")).ok().expect("or failed");
    let mut mask = either.src().mask();
    assert!(either.resolve(&mut mask).is_err());
    assert!(mask.get(0) && mask.get(1));
    let one = part("a").xor(part("b")).ok().expect("xor failed");
    let mut mask = one.src().mask();
    assert!(one.resolve(&mut mask).is_err());
    assert!(mask.get(0) && mask.get(1));
    let both = part("a").and(part("b")).ok().expect("and failed");
    let mut mask = both.src().mask();
    assert!(both.resolve(&mut mask).is_err());
    assert!(!mask.get(0) && mask.get(1));
}

#[test]
fn nodes_are_equal_where_they_hold_the_same() {
    let fields = |names: &[(&str, u32)]| {
        let mut entries = Entries::new();
        for (name, subgraph) in names {
            entries.insert(String::from(*name), *subgraph);
        }
        entries
    };
    let plain = || [Node::Nothing, Node::Unit, Node::Never, Node::Bool, Node::String];
    for (i, a) in plain().iter().enumerate() {
        for (j, b) in plain().iter().enumerate() {
            assert_eq!(a == b, i == j);
        }
    }
    assert!(Node::Option { subgraph: 1 } == Node::Option { subgraph: 1 });
    assert!(Node::Option { subgraph: 1 } != Node::Option { subgraph: 2 });
    assert!(Node::Option { subgraph: 1 } != Node::Sequence { subgraph: 1 });
    assert!(Node::Tuple { subgraphs: vec![1, 2] } == Node::Tuple { subgraphs: vec![1, 2] });
    assert!(Node::Tuple { subgraphs: vec![1, 2] } != Node::Tuple { subgraphs: vec![2, 1] });
    let row = |name: &str, names: &[(&str, u32)]| {
        Node::Struct { name: String::from(name), fields: fields(names) }
    };
    assert!(row("R", &[("a", 1), ("b", 2)]) == row("R", &[("b", 2), ("a", 1)]));
    assert!(row("R", &[("a", 1)]) != row("R", &[("a", 2)]));
    assert!(row("R", &[("a", 1)]) != row("R", &[("b", 1)]));
    assert!(row("R", &[("a", 1)]) != row("S", &[("a", 1)]));
    let choice = Node::Enum { name: String::from("R"), variants: fields(&[("a", 1)]) };
    assert!(choice != row("R", &[("a", 1)]));
    assert!(choice == choice.clone());
}
