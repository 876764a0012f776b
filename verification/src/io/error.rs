//! Errors from reading bytes.

use vstd::prelude::*;

verus! {

/// A failed numerical operation or conversion.
#[derive(Debug, Clone, Copy, PartialEq, Eq, Structural)]
pub enum NumberError {
    /// A value is zero, below zero or past the largest representable.
    Zero,
    /// A value does not fit the type that it was converted to.
    Convert,
}

/// A failure to read or decode bytes.
#[derive(Debug)]
#[non_exhaustive]
pub enum Error {
    /// Fewer bytes or items are present than the read needs.
    Truncated {
        /// The number needed.
        expected: usize,
        /// The number present.
        actual: usize,
    },
    /// The computed checksum does not match the stored one.
    Checksum,
    /// A payload could not be decoded.
    Decode,
    /// Bytes are not valid Unicode text.
    Utf8,
    /// Underlying numerical error.
    Number(NumberError),
    /// Underlying error from the file.
    Io(std::io::Error),
}

/// The result of a decode with its item taken by its deep view.
pub open spec fn viewed<T: DeepView>(result: Result<T, Error>) -> Result<T::V, Error> {
    match result {
        Ok(item) => Ok(item.deep_view()),
        Err(e) => Err(e),
    }
}

} // verus!
