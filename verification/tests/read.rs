//! Decoding and testing items.

use msca::io::deserialize::Deserialize;
use msca::io::error::Error;
use msca::read::decoder::{OptBitVec, Sequence};
use msca::read::evaluate::{Evaluate, IsOption};
use msca::read::outcome::Outcome;
use msca::read::stream::{excluded, included, Listed};

/// A length-prefixed region, padded to a multiple of eight bytes.
fn sized(payload: &[u8], out: &mut Vec<u8>) {
    out.extend_from_slice(&(payload.len() as u64).to_le_bytes());
    out.extend_from_slice(payload);
    let pad = (8 - (payload.len() & 7)) & 7;
    out.resize(out.len() + pad, 0);
}

#[test]
fn seq_deserialize_splits_ends_and_data() {
    let mut buf = Vec::new();
    sized(&3u64.to_le_bytes(), &mut buf);
    sized(b"abc", &mut buf);
    let mut src = buf.as_slice();
    let seq = Sequence::deserialize(&mut src).expect("Deserialize failed");
    assert_eq!(seq.ends, &3u64.to_le_bytes());
    assert_eq!(seq.data, b"abc");
}

#[test]
fn opt_bit_vec_deserialize_splits_mask_and_data() {
    let mut buf = Vec::new();
    sized(&[0b0000_0101], &mut buf);
    let data = [1u32.to_le_bytes(), 3u32.to_le_bytes()].concat();
    sized(&data, &mut buf);
    let mut src = buf.as_slice();
    let opt = OptBitVec::<u32>::deserialize(&mut src).ok().expect("Deserialize failed");
    assert_eq!(opt.mask.get(0), Some(true));
    assert_eq!(opt.mask.get(1), Some(false));
    assert_eq!(opt.mask.get(2), Some(true));
    assert_eq!(opt.data, data.as_slice());
}

#[test]
fn opt_bit_vec_deserialize_accepts_omitted_data() {
    let mut buf = Vec::new();
    sized(&[0b0000_0000], &mut buf);
    let mut src = buf.as_slice();
    let opt = OptBitVec::<u32>::deserialize(&mut src).ok().expect("Deserialize failed");
    assert_eq!(opt.mask.get(0), Some(false));
    assert!(opt.data.is_empty());
}

#[test]
fn seq_deserialize_accepts_omitted_data() {
    let mut buf = Vec::new();
    sized(&0u64.to_le_bytes(), &mut buf);
    let mut src = buf.as_slice();
    let seq = Sequence::deserialize(&mut src).expect("Deserialize failed");
    assert_eq!(seq.ends, &0u64.to_le_bytes());
    assert!(seq.data.is_empty());
}

#[test]
fn outcome_lifts_a_decode_result() {
    let lifted = Outcome::from(Ok::<u32, Error>(7));
    let error = Outcome::from(Err::<u32, Error>(Error::Utf8));
    assert!(matches!(lifted, Outcome::Include(7)));
    assert!(matches!(error, Outcome::Error(..)));
}

#[test]
fn resolution_yields_the_included_items_in_order() {
    let stream = Listed {
        outcomes: vec![
            Outcome::Exclude(1u32),
            Outcome::Include(2),
            Outcome::Exclude(3),
            Outcome::Exclude(4),
            Outcome::Error(Error::Utf8),
            Outcome::Include(5),
            Outcome::Exclude(6),
        ],
    };
    let items: Vec<Result<u32, Error>> = included(stream).collect();
    assert_eq!(items.len(), 3);
    assert!(matches!(items[0], Ok(2)));
    assert!(matches!(items[1], Err(Error::Utf8)));
    assert!(matches!(items[2], Ok(5)));
}

#[test]
fn exclusion_yields_the_rejected_items_in_order() {
    let stream = Listed {
        outcomes: vec![
            Outcome::Exclude(1u32),
            Outcome::Include(2),
            Outcome::Error(Error::Utf8),
            Outcome::Include(3),
            Outcome::Exclude(4),
        ],
    };
    let items: Vec<Result<u32, Error>> = excluded(stream);
    assert_eq!(items.len(), 3);
    assert!(matches!(items[0], Ok(1)));
    assert!(matches!(items[1], Err(Error::Utf8)));
    assert!(matches!(items[2], Ok(4)));
}

#[test]
fn resolution_drains_a_wholly_excluded_stream() {
    let stream = Listed { outcomes: vec![Outcome::Exclude(1u32), Outcome::Exclude(2)] };
    let count = included(stream).collect().len();
    assert_eq!(count, usize::MIN);
}

#[test]
fn evaluate_projects_the_operand() {
    let plain_in = 7u32.evaluate(|op: &u32| *op == 7);
    let plain_out = 7u32.evaluate(|op: &u32| *op == 8);
    let some_in = Some(7u32).evaluate(|op: &u32| *op == 7);
    let some_out = Some(7u32).evaluate(|op: &u32| *op == 8);
    let absent = None::<u32>.evaluate(|op: &u32| *op == 7);
    assert!(plain_in && some_in);
    assert!(!(plain_out || some_out || absent));
}

#[test]
fn keep_wraps_the_verdict_and_passes_other_outcomes_through() {
    let kept = Outcome::Include(7u32).keep(|op: &u32| *op == 7);
    let rejected = Outcome::Include(7u32).keep(|op: &u32| *op == 8);
    let dropped = Outcome::Exclude(7u32).keep(|op: &u32| *op == 7);
    let absent = Outcome::<u32>::Absent.keep(|op: &u32| *op == 7);
    assert!(matches!(kept, Outcome::Include(7)));
    assert!(matches!(rejected, Outcome::Exclude(7)));
    assert!(matches!(dropped, Outcome::Exclude(7)));
    assert!(matches!(absent, Outcome::Absent));
}

#[test]
fn is_option_reports_presence() {
    assert!(IsOption::is_some(&Some(7u32)));
    assert!(!IsOption::is_some(&None::<u32>));
}
