//! Generating the code that reads a composite type.

pub mod field;
pub mod lockstep;
pub mod meaning;
pub mod read;
pub mod template;
