//! Byte regions, framing and the decoding of items from bytes.

pub mod deserialize;
pub mod error;
pub mod region;
pub mod written;
