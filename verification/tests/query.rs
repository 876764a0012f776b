//! Queries over columns.

use msca::bounds::Bounds;
use msca::entries::Entries;
use msca::float::Float64;
use msca::io::region::Sector;
use msca::manifest::buffer::Buffer;
use msca::manifest::column::{Buffers, Column as Descriptor};
use msca::manifest::schema::Schema;
use msca::nonzero::NonZeroU64;
use msca::query::error::Error;
use msca::query::items::Items;
use msca::query::refine::{nth, Join, Refine};
use msca::query::resolve::{Based, Resolve};
use msca::query::source::Query;
use msca::read::outcome::Outcome;
use msca::read::rows::{Rows, Unfiltered};
use msca::read::stream::{drain, included, Stream};
use msca::types::Type;

/// The items that a stream includes; a failed read and an error in the stream are panics.
fn collected<S, E>(stream: Result<S, E>) -> Vec<S::Item>
where
    S: Stream,
    E: std::fmt::Debug,
{
    let stream = stream.expect("Stream construction failed");
    let mut items = Vec::new();
    for outcome in drain(stream) {
        match outcome {
            Outcome::Include(item) => items.push(item),
            Outcome::Exclude(_) => {}
            Outcome::Absent => {}
            Outcome::Error(e) => panic!("Read error: {e:?}"),
        }
    }
    items
}

fn encode(items: &[u32]) -> Vec<u8> {
    items.iter().flat_map(|i| i.to_le_bytes()).collect()
}

/// A length-prefixed region, padded to a multiple of eight bytes.
fn sized(payload: &[u8], out: &mut Vec<u8>) {
    out.extend_from_slice(&(payload.len() as u64).to_le_bytes());
    out.extend_from_slice(payload);
    let pad = (8 - (payload.len() & 7)) & 7;
    out.resize(out.len() + pad, 0);
}

fn seq(items: &[&[u8]]) -> Vec<u8> {
    let mut ends = Vec::new();
    let mut data = Vec::new();
    for item in items {
        data.extend_from_slice(item);
        ends.extend_from_slice(&(data.len() as u64).to_le_bytes());
    }
    let mut out = Vec::new();
    sized(&ends, &mut out);
    sized(&data, &mut out);
    out
}

/// Optional numbers behind a validity mask.
fn opt_bit_vec(items: &[Option<u32>]) -> Vec<u8> {
    let mut mask = vec![0u8; items.len().div_ceil(8)];
    let mut data = Vec::new();
    for (i, item) in items.iter().enumerate() {
        if let Some(item) = item {
            mask[i / 8] |= 1 << (i % 8);
            data.extend_from_slice(&item.to_le_bytes());
        }
    }
    let mut out = Vec::new();
    sized(&mask, &mut out);
    sized(&data, &mut out);
    out
}

fn sector(offset: u64, size: u64) -> Sector {
    Sector::new(offset, size).expect("Sector::new failed")
}

fn count(n: u64) -> NonZeroU64 {
    NonZeroU64::new(n).expect("Zero rows")
}

fn slot(index: u64) -> Sector {
    sector(index * 4, 4)
}

fn detailed(len: usize, n: u64, min: u64, max: u64) -> Buffer {
    Buffer::Detailed {
        buffer: sector(0, len as u64),
        count: count(n),
        min: slot(min),
        max: slot(max),
    }
}

/// The mapped bytes and the columns that a query borrows.
struct Fixture {
    mmap: Vec<u8>,
    schema: Schema,
}

impl Fixture {
    fn new(bytes: &[u8], columns: Vec<(String, Descriptor)>) -> Self {
        let mut entries = Entries::new();
        for (name, column) in columns {
            entries.insert(name, column);
        }
        Fixture {
            mmap: bytes.to_vec(),
            schema: Schema { sector: sector(0, 1), columns: entries },
        }
    }

    fn query(&self) -> Query<'_> {
        Query { mmap: &self.mmap, schema: &self.schema }
    }
}

fn column(name: &str, ty: Type, buffers: Vec<Buffer>) -> (String, Descriptor) {
    let mut set = Buffers::new();
    for buffer in buffers {
        set.insert(buffer);
    }
    (String::from(name), Descriptor { ty, buffers: set })
}

fn span(offset: usize, len: usize, n: usize) -> Buffer {
    Buffer::Basic { buffer: sector(offset as u64, len as u64), count: count(n as u64) }
}

fn stats(items: &[u32]) -> Fixture {
    let bytes = encode(items);
    let last = items.len() as u64 - 1;
    let buffer = detailed(bytes.len(), items.len() as u64, 0, last);
    with(&bytes, Type::U32, buffer)
}

fn with(bytes: &[u8], ty: Type, buffer: Buffer) -> Fixture {
    Fixture::new(bytes, vec![column("v", ty, vec![buffer])])
}

fn query(bytes: &[u8], ty: Type, n: u64) -> Fixture {
    let buffer = span(0, bytes.len(), n as usize);
    with(bytes, ty, buffer)
}

fn compact(bytes: &[u8], ty: Type, n: u64) -> Fixture {
    let buffer = repeat(0, bytes.len(), n);
    with(bytes, ty, buffer)
}

fn pair(a: &[u32], b: &[u32]) -> Fixture {
    let ab = encode(a);
    let bb = encode(b);
    let left = column("a", Type::U32, vec![span(0, ab.len(), a.len())]);
    let right = column("b", Type::U32, vec![span(ab.len(), bb.len(), b.len())]);
    let bytes = [ab, bb].concat();
    Fixture::new(&bytes, vec![left, right])
}

fn spread(a: &[u32], b: &[u32]) -> Fixture {
    let ab = encode(a);
    let bb = encode(b);
    let first = span(0, ab.len(), a.len());
    let second = span(ab.len(), bb.len(), b.len());
    let bytes = [ab, bb].concat();
    Fixture::new(&bytes, vec![column("v", Type::U32, vec![first, second])])
}

fn mixed(one: u32, n: u64, items: &[u32]) -> Fixture {
    let head = encode(&[one]);
    let tail = encode(items);
    let first = repeat(0, head.len(), n);
    let second = span(head.len(), tail.len(), items.len());
    let bytes = [head, tail].concat();
    Fixture::new(&bytes, vec![column("v", Type::U32, vec![first, second])])
}

fn repeat(offset: usize, len: usize, n: u64) -> Buffer {
    Buffer::Compact { buffer: sector(offset as u64, len as u64), count: count(n) }
}

fn segmented(items: [[u32; 3]; 3]) -> Fixture {
    let mut bytes = Vec::new();
    let mut columns = Vec::new();
    for pair in ["a", "b", "c"].into_iter().zip(items) {
        let mut buffers = Vec::new();
        for item in pair.1 {
            let body = encode(&[item]);
            buffers.push(repeat(bytes.len(), body.len(), 2));
            bytes.extend_from_slice(&body);
        }
        columns.push(column(pair.0, Type::U32, buffers));
    }
    Fixture::new(&bytes, columns)
}

/// A composite item rebuilt from the column `v`.
#[derive(Debug, PartialEq, Eq, Hash)]
struct Composed {
    v: u32,
}

/// The reader of composite items, holding one stream per field.
struct Rebuild<'a> {
    v: Box<dyn FnMut() -> Option<Outcome<u32>> + 'a>,
}

impl<'a> Rows for Rebuild<'a> {
    type Item = Composed;

    fn next(&mut self) -> Option<Outcome<Composed>> {
        let outcome = match (self.v)()? {
            Outcome::Include(v) => Outcome::Include(Composed { v }),
            Outcome::Exclude(v) => Outcome::Exclude(Composed { v }),
            Outcome::Error(e) => Outcome::Error(e),
            Outcome::Absent => Outcome::Absent,
        };
        Some(outcome)
    }
}

impl<'a> Unfiltered<'a> for Composed {
    type Reader = Rebuild<'a>;

    fn unfiltered(query: Query<'a>) -> Result<Rebuild<'a>, Error> {
        let mut stream = query.column::<u32>("v")?.read()?;
        Ok(Rebuild { v: Box::new(move || stream.next()) })
    }

    fn nth(query: Query<'a>, n: usize) -> Result<Rebuild<'a>, Error> {
        let mut stream = query.column::<u32>("v")?.skip(n).take(1).read()?;
        Ok(Rebuild { v: Box::new(move || stream.next()) })
    }
}

#[test]
fn column_round_trips_u32() {
    let data: Vec<u32> = vec![10, 20, 30];
    let bytes = encode(&data);
    let query = query(&bytes, Type::U32, 3);
    let query = query.query();
    let rows = collected(query.column::<u32>("v").expect("Column failed").read());
    assert_eq!(rows, data);
}

#[test]
fn query_read_matches_the_column_terminal() {
    let bytes = encode(&[10, 20, 30]);
    let fixture = query(&bytes, Type::U32, 3);
    let one = fixture.query();
    let single = collected(one.read::<u32>("v"));
    let chained = collected(one.column::<u32>("v").expect("Column failed").read());
    let absent = one.read::<u32>("missing").err();
    let fixture = spread(&[10, 20, 30, 40], &[50, 60, 70, 80]);
    let many = fixture.query();
    let across = collected(many.read::<u32>("v"));
    let walked = collected(many.column::<u32>("v").expect("Column failed").read());
    assert_eq!(single, [10, 20, 30]);
    assert_eq!(single, chained);
    assert!(matches!(absent, Some(Error::Column { .. })));
    assert_eq!(across, [10, 20, 30, 40, 50, 60, 70, 80]);
    assert_eq!(across, walked);
}

#[test]
fn items_outlive_the_query_handle() {
    let bytes = encode(&[10, 20, 30]);
    let fixture = query(&bytes, Type::U32, 3);
    let handle = {
        let query = fixture.query();
        query.column::<u32>("v").expect("Column failed")
    };
    assert_eq!(collected(handle.read()), [10, 20, 30]);
}

#[test]
fn column_type_mismatch_errors() {
    let bytes = encode(&[1]);
    let query = query(&bytes, Type::U32, 1);
    let query = query.query();
    let error = query.column::<u16>("v").expect_err("Type mismatch accepted");
    assert!(matches!(error, Error::Type { expect: Type::U16, actual: Type::U32 }));
}

#[test]
fn compact_column_decodes_once() {
    let bytes = encode(&[7]);
    let query = compact(&bytes, Type::U32, 3);
    let query = query.query();
    let rows = collected(query.column::<u32>("v").expect("Column failed").read());
    assert_eq!(rows, [7, 7, 7]);
}

#[test]
fn compact_repeats_contained_range() {
    let bytes = encode(&[7]);
    let query = compact(&bytes, Type::U32, 3);
    let query = query.query();
    let handle = query.column::<u32>("v").expect("Column failed").range(Bounds::from(5u32..10));
    assert_eq!(collected(handle.read()), [7, 7, 7]);
}

#[test]
fn compact_prunes_disjoint_item() {
    let bytes = encode(&[7]);
    let away = compact(&bytes, Type::U32, 3);
    let away = away.query();
    let away = away.column::<u32>("v").expect("Column failed").eq(100u32);
    assert!(collected(away.read()).is_empty());
    let kept = compact(&bytes, Type::U32, 3);
    let kept = kept.query();
    let kept = kept.column::<u32>("v").expect("Column failed").eq(7u32);
    assert_eq!(collected(kept.read()), [7, 7, 7]);
}

#[test]
fn compact_prunes_ne() {
    let bytes = encode(&[7]);
    let away = compact(&bytes, Type::U32, 3);
    let away = away.query();
    let away = away.column::<u32>("v").expect("Column failed").ne(7u32);
    assert!(collected(away.read()).is_empty());
    let kept = compact(&bytes, Type::U32, 3);
    let kept = kept.query();
    let kept = kept.column::<u32>("v").expect("Column failed").ne(9u32);
    assert_eq!(collected(kept.read()), [7, 7, 7]);
}

#[test]
fn basic_streams_unpruned() {
    let bytes = encode(&[10, 20, 30]);
    let query = query(&bytes, Type::U32, 3);
    let query = query.query();
    let handle = query.column::<u32>("v").expect("Column failed").range(Bounds::from(15u32..25));
    assert_eq!(collected(handle.read()), [20]);
}

#[test]
fn string_filters_prune_compact() {
    let bytes = seq(&[b"red"]);
    let away = compact(&bytes, Type::String, 3);
    let away = away.query();
    let away = away.column::<String>("v").expect("Column failed").eq(String::from("blue"));
    assert!(collected(away.read()).is_empty());
    let kept = compact(&bytes, Type::String, 3);
    let kept = kept.query();
    let kept = kept.column::<String>("v").expect("Column failed").eq(String::from("red"));
    assert_eq!(collected(kept.read()).len(), 3);
}

#[test]
fn bool_column_round_trip() {
    let bytes = vec![0b0000_0101u8];
    let query = query(&bytes, Type::Bool, 3);
    let query = query.query();
    let rows = collected(query.column::<bool>("v").expect("Column failed").read());
    assert_eq!(rows, vec![true, false, true]);
}

#[test]
fn opt_bit_vec_column_round_trip() {
    let bytes = opt_bit_vec(&[Some(1), None, Some(3)]);
    let query = query(&bytes, Type::option(Type::U32), 3);
    let query = query.query();
    let rows = collected(query.column::<Option<u32>>("v").expect("Column failed").read());
    assert_eq!(rows, vec![Some(1), None, Some(3)]);
}

#[test]
fn niche_option_column_round_trip() {
    let bytes: Vec<u8> = [5u64, 0, 7].iter().flat_map(|i| i.to_le_bytes()).collect();
    let query = query(&bytes, Type::option(Type::NZU64), 3);
    let query = query.query();
    let rows = collected(query.column::<Option<NonZeroU64>>("v").expect("Column failed").read());
    assert_eq!(rows, vec![NonZeroU64::new(5), None, NonZeroU64::new(7)]);
}

#[test]
fn seq_column_round_trip() {
    let bytes = seq(&[&[97, 98, 99], &[100, 101]]);
    let query = query(&bytes, Type::sequence(Type::U8), 2);
    let query = query.query();
    let rows = collected(query.column::<Vec<u8>>("v").expect("Column failed").read());
    assert_eq!(rows, vec![vec![97, 98, 99], vec![100, 101]]);
}

#[test]
fn string_column_round_trip() {
    let bytes = seq(&["héllo".as_bytes(), "xyz".as_bytes()]);
    let query = query(&bytes, Type::String, 2);
    let query = query.query();
    let rows = collected(query.column::<String>("v").expect("Column failed").read());
    assert_eq!(rows, vec![String::from("héllo"), String::from("xyz")]);
}

#[test]
fn str_column_zero_copy() {
    let bytes = seq(&[b"abc", b"de"]);
    let query = query(&bytes, Type::String, 2);
    let query = query.query();
    let rows = collected(query.column::<&str>("v").expect("Column failed").read());
    assert_eq!(rows, vec!["abc", "de"]);
}

#[test]
fn eq_filter_excludes_non_matching() {
    let bytes = encode(&[10, 20, 30]);
    let query = query(&bytes, Type::U32, 3);
    let query = query.query();
    let handle = query.column::<u32>("v").expect("Column failed").eq(20u32);
    assert_eq!(collected(handle.read()), vec![20]);
}

#[test]
fn ne_filter_excludes_matching() {
    let bytes = encode(&[10, 20, 30]);
    let query = query(&bytes, Type::U32, 3);
    let query = query.query();
    let handle = query.column::<u32>("v").expect("Column failed").ne(20u32);
    assert_eq!(collected(handle.read()), vec![10, 30]);
}

#[test]
fn float_set_membership_matches_bit_patterns() {
    let items = [1.5f64, f64::NAN, 2.5];
    let bytes: Vec<u8> = items.iter().flat_map(|i| i.to_le_bytes()).collect();
    let query = query(&bytes, Type::F64, 3);
    let query = query.query();
    let column = query.column::<Float64>("v").expect("Column");
    let wanted = vec![Float64 { bits: f64::NAN.to_bits() }, Float64 { bits: 2.5f64.to_bits() }];
    let kept = collected(column.one_of(wanted).read());
    assert_eq!(kept.len(), 2);
    assert!(f64::from_bits(kept[0].bits).is_nan());
    assert_eq!(f64::from_bits(kept[1].bits), 2.5);
}

#[test]
fn sorted_set_membership_bisects() {
    let bytes = encode(&[10, 20, 30]);
    let query = query(&bytes, Type::U32, 3);
    let query = query.query();
    let kept = query.column::<u32>("v").expect("Column").one_of_sorted(vec![20u32, 30]);
    let none = query.column::<u32>("v").expect("Column").none_of_sorted(vec![20u32]);
    let away = stats(&[8, 9]);
    let away = away.query();
    let away = away.column::<u32>("v").expect("Column").one_of_sorted(vec![1u32, 4, 7, 12]);
    assert_eq!(collected(kept.read()), [20, 30]);
    assert_eq!(collected(none.read()), [10, 30]);
    assert!(collected(away.read()).is_empty());
}

#[test]
fn hashed_set_membership_filters() {
    let bytes = encode(&[10, 20, 30]);
    let one = query(&bytes, Type::U32, 3);
    let one = one.query();
    let one = one.column::<u32>("v").expect("Column").one_of_set(vec![20u32, 30]);
    assert_eq!(collected(one.read()), [20, 30]);
    let none = query(&bytes, Type::U32, 3);
    let none = none.query();
    let none = none.column::<u32>("v").expect("Column").none_of_set(vec![20u32]);
    assert_eq!(collected(none.read()), [10, 30]);
    let away = stats(&[10, 15, 20]);
    let away = away.query();
    let away = away.column::<u32>("v").expect("Column").one_of_set(vec![99u32]);
    assert!(collected(away.read()).is_empty());
}

#[test]
fn set_membership_prunes_between_candidates() {
    let scan = stats(&[8, 9]);
    let scan = scan.query();
    let scan = scan.column::<u32>("v").expect("Column").one_of(vec![1u32, 4, 7, 12]);
    let hash = stats(&[8, 9]);
    let hash = hash.query();
    let hash = hash.column::<u32>("v").expect("Column").one_of_set(vec![1u32, 4, 7, 12]);
    assert!(collected(scan.read()).is_empty());
    assert!(collected(hash.read()).is_empty());
}

#[test]
fn unique_and_index_deduplicate_a_column() {
    let bytes = encode(&[10, 20, 10, 30]);
    let query = query(&bytes, Type::U32, 4);
    let query = query.query();
    let column = query.column::<u32>("v").expect("Column");
    let unique = column.into_hash_set().expect("set failed");
    let column = query.column::<u32>("v").expect("Column");
    let index = column.into_hash_map::<u64>().expect("map failed");
    assert_eq!(unique.len(), 3);
    assert!(unique.contains(&10) && unique.contains(&20) && unique.contains(&30));
    assert_eq!(index[&10], u64::MIN);
    assert_eq!(index[&20], 1);
    assert_eq!(index[&30], 3);
}

#[test]
fn set_membership_filters() {
    let bytes = encode(&[10, 20, 30]);
    let one = query(&bytes, Type::U32, 3);
    let one = one.query();
    let one = one.column::<u32>("v").expect("Column").one_of(vec![20u32, 30]);
    assert_eq!(collected(one.read()), [20, 30]);
    let none = query(&bytes, Type::U32, 3);
    let none = none.query();
    let none = none.column::<u32>("v").expect("Column").none_of(vec![20u32]);
    assert_eq!(collected(none.read()), [10, 30]);
}

#[test]
fn validity_filters_split_optionals() {
    let bytes = opt_bit_vec(&[Some(1), None, Some(3)]);
    let some = query(&bytes, Type::option(Type::U32), 3);
    let some = some.query();
    let some = some.column::<Option<u32>>("v").expect("Column").is_some();
    assert_eq!(collected(some.read()), vec![1, 3]);
    let none = query(&bytes, Type::option(Type::U32), 3);
    let none = none.query();
    let none = none.column::<Option<u32>>("v").expect("Column").is_none();
    assert_eq!(collected(none.read()), vec![None]);
}

#[test]
fn item_filter_excludes_none_on_optional() {
    let bytes = opt_bit_vec(&[Some(1), None, Some(20)]);
    let ty = || Type::option(Type::U32);
    let kept = query(&bytes, ty(), 3);
    let kept = kept.query();
    let kept = kept.column::<Option<u32>>("v").expect("Column").eq(20u32);
    assert_eq!(collected(kept.read()), vec![Some(20)]);
    let chained = query(&bytes, ty(), 3);
    let chained = chained.query();
    let handle = chained.column::<Option<u32>>("v").expect("Column");
    let chained = handle.is_some().eq(20u32);
    assert_eq!(collected(chained.read()), vec![20]);
    let absent = query(&bytes, ty(), 3);
    let absent = absent.query();
    let absent = absent.column::<Option<u32>>("v").expect("Column").is_none();
    assert_eq!(collected(absent.read()), vec![None]);
}

#[test]
fn eq_type_mismatch_errors() {
    let bytes = encode(&[1]);
    let query = query(&bytes, Type::U32, 1);
    let query = query.query();
    query.column::<bool>("v").expect_err("Type mismatch accepted");
}

#[test]
fn eq_prunes_disjoint_column() {
    let query = stats(&[10, 15, 20]);
    let query = query.query();
    let handle = query.column::<u32>("v").expect("Column").eq(100u32);
    assert!(collected(handle.read()).is_empty());
}

#[test]
fn column_unknown_name_errors() {
    let bytes = encode(&[1]);
    let query = query(&bytes, Type::U32, 1);
    let query = query.query();
    let error = query.column::<u32>("missing").expect_err("Unknown column accepted");
    assert!(matches!(error, Error::Column { .. }));
}

#[test]
fn read_rebuilds_composite_items() {
    let fixture = stats(&[10, 20, 30]);
    let query = fixture.query();
    let mut rows = query.iter::<Composed>().expect("composite read rejected");
    let mut items = Vec::new();
    while let Some(row) = rows.next() {
        items.push(row.expect("item failed").v);
    }
    assert_eq!(items, [10, 20, 30]);
}

#[test]
fn read_empty_column_map_errors() {
    let fixture = Fixture::new(&[], vec![]);
    let query = fixture.query();
    let error = query.iter::<Composed>().err();
    assert!(matches!(error, Some(Error::Column { .. })));
}

#[test]
fn read_absent_column_errors() {
    let fixture = Fixture::new(&[], vec![column("w", Type::U32, vec![])]);
    let query = fixture.query();
    let error = query.iter::<Composed>().err();
    assert!(matches!(error, Some(Error::Column { .. })));
}

#[test]
fn handles_filter_per_column() {
    let query = pair(&[10, 20, 30], &[1, 2, 3]);
    let query = query.query();
    let a = query.column::<u32>("a").expect("Column a").range(Bounds::from(15u32..25));
    assert_eq!(collected(a.read()), [20]);
    assert_eq!(collected(query.column::<u32>("b").expect("Column b").read()), [1, 2, 3]);
}

#[test]
fn join_syncs_buffers() {
    let bytes = encode(&[10, 20, 30]);
    let stats = detailed(bytes.len(), 3, 0, 2);
    let basic = span(0, bytes.len(), 3);
    let left = column("a", Type::U32, vec![stats]);
    let right = column("b", Type::U32, vec![basic]);
    let query = Fixture::new(&bytes, vec![left, right]);
    let query = query.query();
    let a = query.column::<u32>("a").expect("Column a").eq(100u32);
    let b = query.column::<u32>("b").expect("Column b");
    let join = a.and(b).expect("join failed");
    let mut mask = join.src().mask();
    join.resolve(&mut mask).ok().expect("resolve failed");
    assert_eq!(mask.len(), 1);
    assert!(!mask.get(0));
}

#[test]
fn disjunct_unites_within_the_offered_buffers() {
    let fixture = segmented([[1, 2, 3], [4, 5, 6], [7, 8, 9]]);
    let query = fixture.query();
    let a = query.column::<u32>("a").expect("Column a").one_of(vec![2u32, 3]);
    let b = query.column::<u32>("b").expect("Column b").eq(5u32);
    let c = query.column::<u32>("c").expect("Column c");
    let tree = a.and(b.or(c).ok().expect("or failed")).ok().expect("and failed");
    let mut mask = tree.src().mask();
    tree.resolve(&mut mask).ok().expect("resolve failed");
    let kept: Vec<bool> = (0..mask.len()).map(|i| mask.get(i)).collect();
    assert_eq!(kept.iter().filter(|b| **b).count(), 2);
    assert!(!kept[0]);
}

#[test]
fn cross_query_join_errors() {
    let one = pair(&[1, 2], &[3, 4]);
    let one = one.query();
    let two = pair(&[1, 2], &[3, 4]);
    let two = two.query();
    let a = one.column::<u32>("a").expect("Column a");
    let b = two.column::<u32>("b").expect("Column b");
    let joined = a.and(b).err();
    assert!(matches!(joined, Some(Error::Join)));
}

#[test]
fn skip_take_window_spans_buffers() {
    let query = spread(&[10, 20, 30, 40], &[50, 60, 70, 80]);
    let query = query.query();
    let whole = query.column::<u32>("v").expect("Column").skip(0).take(8);
    let across = query.column::<u32>("v").expect("Column").skip(2).take(3);
    let inside = query.column::<u32>("v").expect("Column").skip(5).take(2);
    assert_eq!(collected(whole.read()), [10, 20, 30, 40, 50, 60, 70, 80]);
    assert_eq!(collected(across.read()), [30, 40, 50]);
    assert_eq!(collected(inside.read()), [60, 70]);
}

#[test]
fn column_skip_take_and_nth() {
    let bytes = encode(&[10, 20, 30, 40]);
    let query = query(&bytes, Type::U32, 4);
    let query = query.query();
    let window = query.column::<u32>("v").expect("Column").skip(1).take(2);
    assert_eq!(collected(window.read()), [20, 30]);
    let item = nth(query.column::<u32>("v").expect("Column"), 3).expect("nth failed");
    assert_eq!(item, Some(40));
}

#[test]
fn columns_window_in_lockstep() {
    let query = pair(&[10, 20, 30], &[1, 2, 3]);
    let query = query.query();
    let a = query.column::<u32>("a").expect("Column a").skip(1).take(2);
    let b = query.column::<u32>("b").expect("Column b").skip(1).take(2);
    assert_eq!(collected(a.read()), [20, 30]);
    assert_eq!(collected(b.read()), [2, 3]);
}

#[test]
fn skip_trims_whole_buffers_and_residual() {
    let fixture = spread(&[10, 20, 30, 40], &[50, 60, 70, 80]);
    let query = fixture.query();
    let across = query.column::<u32>("v").expect("Column").skip(5);
    let exact = query.column::<u32>("v").expect("Column").skip(4);
    let past = query.column::<u32>("v").expect("Column").skip(9);
    assert_eq!(collected(across.read()), [60, 70, 80]);
    assert_eq!(collected(exact.read()), [50, 60, 70, 80]);
    assert!(collected(past.read()).is_empty());
}

#[test]
fn take_keeps_whole_buffers_and_residual() {
    let fixture = spread(&[10, 20, 30, 40], &[50, 60, 70, 80]);
    let query = fixture.query();
    let kept = query.column::<u32>("v").expect("Column").take(5);
    let cut = query.column::<u32>("v").expect("Column").take(4);
    let whole = query.column::<u32>("v").expect("Column").take(9);
    assert_eq!(collected(kept.read()), [10, 20, 30, 40, 50]);
    assert_eq!(collected(cut.read()), [10, 20, 30, 40]);
    assert_eq!(collected(whole.read()), [10, 20, 30, 40, 50, 60, 70, 80]);
}

#[test]
fn skip_descends_past_an_already_excluded_buffer() {
    let fixture = mixed(10, 4, &[50, 60, 70, 80]);
    let query = fixture.query();
    let handle = query.column::<u32>("v").expect("Column").range(Bounds::from_start(50u32)).skip(2);
    assert_eq!(collected(handle.read()), [70, 80]);
}

#[test]
fn skip_residual_dies_with_a_pruned_anchor() {
    let fixture = mixed(10, 4, &[50, 60, 70, 80]);
    let query = fixture.query();
    let handle = query.column::<u32>("v").expect("Column").skip(2).range(Bounds::from_start(50u32));
    assert_eq!(collected(handle.read()), [50, 60, 70, 80]);
}

#[test]
fn take_window_shrinks_under_a_later_prune() {
    let fixture = mixed(10, 4, &[50, 60, 70, 80]);
    let query = fixture.query();
    let handle = query.column::<u32>("v").expect("Column").take(6).range(Bounds::from_start(50u32));
    assert_eq!(collected(handle.read()), [50, 60]);
}

#[test]
fn semi_and_anti_join_split_a_column_by_another_query() {
    let bytes = encode(&[10, 20, 30, 40]);
    let left = query(&bytes, Type::U32, 4);
    let left = left.query();
    let bytes = encode(&[20, 40]);
    let right = query(&bytes, Type::U32, 2);
    let right = right.query();
    let kept = left.column::<u32>("v").expect("Column");
    let kept = kept.semi_join(right.column::<u32>("v").expect("Column"));
    let away = left.column::<u32>("v").expect("Column");
    let away = away.anti_join(right.column::<u32>("v").expect("Column"));
    assert_eq!(collected(kept.read()), [20, 40]);
    assert_eq!(collected(away.read()), [10, 30]);
}

#[test]
fn semi_join_prunes_a_compact_buffer_holding_no_key() {
    let bytes = encode(&[7]);
    let left = compact(&bytes, Type::U32, 3);
    let left = left.query();
    let bytes = encode(&[99]);
    let right = query(&bytes, Type::U32, 1);
    let right = right.query();
    let away = left.column::<u32>("v").expect("Column");
    let away = away.semi_join(right.column::<u32>("v").expect("Column"));
    assert!(collected(away.read()).is_empty());
}

fn drained(buffer: &Buffer, mmap: &[u8]) -> Result<Vec<u32>, msca::io::error::Error> {
    included(Items::<u32>::new(vec![buffer], mmap)).collect().into_iter().collect()
}

#[test]
fn decode_reads_standard_buffer() {
    let bytes = encode(&[10, 20, 30]);
    let buffer = span(0, bytes.len(), 3);
    let items = drained(&buffer, &bytes).expect("Decode failed");
    assert_eq!(items, [10, 20, 30]);
}

#[test]
fn decode_repeats_compact_item() {
    let bytes = encode(&[7]);
    let buffer = repeat(0, bytes.len(), 3);
    let items = drained(&buffer, &bytes).expect("Decode failed");
    assert_eq!(items, [7, 7, 7]);
}

#[test]
fn decode_rejects_out_of_bounds_sector() {
    let bytes = [u8::MIN; 8];
    let buffer = Buffer::Basic { buffer: sector(0, 64), count: count(1) };
    let error = drained(&buffer, &bytes).expect_err("Out-of-bounds sector accepted");
    assert!(matches!(error, msca::io::error::Error::Truncated { .. }));
}
