//! Errors from building and running queries.

use crate::io;
use crate::io::error::NumberError;
use crate::text::joined;
use crate::types::Type;
use vstd::prelude::*;

verus! {

/// Errors from building and running a query.
#[derive(Debug)]
#[non_exhaustive]
pub enum Error {
    /// The schema has no column of the requested name.
    Column {
        /// The requested name.
        name: String,
    },
    /// Underlying error from reading the file.
    Io(io::error::Error),
    /// Underlying numerical error.
    Number(NumberError),
    /// The requested type is not the type of the column.
    Type {
        /// The type that the caller expects.
        expect: Type,
        /// The type of the column.
        actual: Type,
    },
    /// Columns of different queries cannot be combined.
    Join,
}

impl Error {
    /// The text of the error, where `first` is the text of the underlying error or of the expected
    /// type, and `second` that of the actual type.
    pub open spec fn text(&self, first: Seq<char>, second: Seq<char>) -> Seq<char> {
        match *self {
            Error::Column { name } => "Column '"@ + name@ + "' not found"@,
            Error::Io(_) => "Query IO error → "@ + first,
            Error::Number(_) => "Number error → "@ + first,
            Error::Type { .. } => "Type error → "@ + first + " ≠ "@ + second,
            Error::Join => "Join error → handles from different queries"@,
        }
    }

    /// The text of the error, given the text of the underlying error or of the expected type, and
    /// that of the actual type.
    pub fn message_with(&self, first: &str, second: &str) -> (text: String)
        ensures
            text@ == self.text(first@, second@),
    {
        match self {
            Error::Column { name } => {
                let text = joined("Column '", name.as_str());
                joined(text.as_str(), "' not found")
            },
            Error::Io(_) => joined("Query IO error → ", first),
            Error::Number(_) => joined("Number error → ", first),
            Error::Type { .. } => {
                let text = joined("Type error → ", first);
                let text = joined(text.as_str(), " ≠ ");
                joined(text.as_str(), second)
            },
            Error::Join => "Join error → handles from different queries".to_owned(),
        }
    }

    /// The error that stands for `e`. A numerical error is not nested.
    pub open spec fn of(e: io::error::Error) -> Error {
        match e {
            io::error::Error::Number(n) => Error::Number(n),
            other => Error::Io(other),
        }
    }
}

impl From<io::error::Error> for Error {
    fn from(e: io::error::Error) -> (error: Self) {
        match e {
            io::error::Error::Number(n) => Error::Number(n),
            other => Error::Io(other),
        }
    }
}

impl vstd::std_specs::convert::FromSpecImpl<io::error::Error> for Error {
    open spec fn obeys_from_spec() -> bool {
        true
    }

    open spec fn from_spec(e: io::error::Error) -> Self {
        Error::of(e)
    }
}

impl From<NumberError> for Error {
    fn from(e: NumberError) -> (error: Self) {
        Error::Number(e)
    }
}

impl vstd::std_specs::convert::FromSpecImpl<NumberError> for Error {
    open spec fn obeys_from_spec() -> bool {
        true
    }

    open spec fn from_spec(e: NumberError) -> Self {
        Error::Number(e)
    }
}

impl From<core::num::TryFromIntError> for Error {
    fn from(e: core::num::TryFromIntError) -> (error: Self) {
        Error::Number(NumberError::Convert)
    }
}

impl vstd::std_specs::convert::FromSpecImpl<core::num::TryFromIntError> for Error {
    open spec fn obeys_from_spec() -> bool {
        true
    }

    open spec fn from_spec(e: core::num::TryFromIntError) -> Self {
        Error::Number(NumberError::Convert)
    }
}

impl From<std::io::Error> for Error {
    fn from(e: std::io::Error) -> (error: Self) {
        Error::Io(io::error::Error::Io(e))
    }
}

impl vstd::std_specs::convert::FromSpecImpl<std::io::Error> for Error {
    open spec fn obeys_from_spec() -> bool {
        true
    }

    open spec fn from_spec(e: std::io::Error) -> Self {
        Error::Io(io::error::Error::Io(e))
    }
}

impl<T, E: From<Error>> From<Error> for Result<T, E> {
    fn from(error: Error) -> (result: Self) {
        Err(E::from(error))
    }
}

impl<T, E: From<Error>> vstd::std_specs::convert::FromSpecImpl<Error> for Result<T, E> {
    open spec fn obeys_from_spec() -> bool {
        <E as vstd::std_specs::convert::FromSpec<Error>>::obeys_from_spec()
    }

    open spec fn from_spec(error: Error) -> Self {
        Err(<E as vstd::std_specs::convert::FromSpec<Error>>::from_spec(error))
    }
}

// ---------------------------------------------------------------- laws

/// A numerical error from reading is one of the query, and any other error from reading is held as it is.
pub proof fn law_numerical_errors_are_not_nested(e: io::error::Error, error: Error)
    requires
        call_ensures(<Error as From<io::error::Error>>::from, (e,), error),
    ensures
        e matches io::error::Error::Number(n) ==> error == Error::Number(n),
        !(e is Number) ==> error == Error::Io(e),
        Error::of(e) == error,
{
}

/// Each error says what it is, and with it the text that it carries.
pub proof fn law_errors_say_what_they_are(error: Error, first: &str, second: &str, text: String)
    requires
        call_ensures(Error::message_with, (&error, first, second), text),
    ensures
        error matches Error::Column { name } ==> text@ == "Column '"@ + name@ + "' not found"@,
        error is Io ==> text@ == "Query IO error → "@ + first@,
        error is Number ==> text@ == "Number error → "@ + first@,
        error is Type ==> text@ == "Type error → "@ + first@ + " ≠ "@ + second@,
        error is Join ==> text@ == "Join error → handles from different queries"@,
{
}

} // verus!
