//! Columnar storage for n-dimensional analytical data.
//!
//! A [`query::source::Query`] opens the columns of one schema. Its columns are refined by
//! [`query::refine::Refine`], combined by [`query::refine::Join`] and read as streams of outcomes.

pub mod bit_match;
pub mod bounds;
pub mod derive;
pub mod entries;
pub mod error;
pub mod float;
pub mod hashed;
pub mod io;
pub mod manifest;
pub mod nonzero;
pub mod num;
pub mod number;
pub mod order;
pub mod primitive;
pub mod query;
pub mod read;
pub mod schema;
mod sealed;
pub mod sector;
pub mod text;
pub mod types;
pub mod unsigned;
