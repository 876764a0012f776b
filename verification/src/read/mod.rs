//! Decoding the items of one column from the bytes of its buffers.

pub mod decode;
pub mod decoder;
pub mod evaluate;
pub mod item;
pub mod outcome;
pub mod rows;
pub mod stream;
