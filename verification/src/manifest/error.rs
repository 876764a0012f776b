//! Errors from manifest entries.

use crate::text::joined;
use vstd::prelude::*;

verus! {

/// Errors from registering and finding manifest entries.
#[derive(Debug, Clone)]
#[non_exhaustive]
pub enum Error {
    /// No entry is recorded under the requested name.
    NotFound {
        /// The requested name.
        name: String,
    },
    /// An entry is already recorded under the requested name.
    Collision {
        /// The requested name.
        name: String,
    },
}

impl Error {
    /// The text of the error.
    pub open spec fn text(&self) -> Seq<char> {
        match *self {
            Error::NotFound { name } => "Manifest entry not found → "@ + name@,
            Error::Collision { name } => "Manifest entry collision → "@ + name@,
        }
    }

    /// The text of the error.
    pub fn message(&self) -> (text: String)
        ensures
            text@ == self.text(),
    {
        match self {
            Error::NotFound { name } => joined("Manifest entry not found → ", name.as_str()),
            Error::Collision { name } => joined("Manifest entry collision → ", name.as_str()),
        }
    }
}

impl<T, E: From<Error>> From<Error> for Result<T, E> {
    fn from(error: Error) -> (result: Self) {
        Err(E::from(error))
    }
}

impl<T, E: From<Error>> vstd::std_specs::convert::FromSpecImpl<Error> for Result<T, E> {
    open spec fn obeys_from_spec() -> bool {
        <E as vstd::std_specs::convert::FromSpec<Error>>::obeys_from_spec()
    }

    open spec fn from_spec(error: Error) -> Self {
        Err(<E as vstd::std_specs::convert::FromSpec<Error>>::from_spec(error))
    }
}

// ---------------------------------------------------------------- laws

/// Each error says what it is, and the name that was asked for.
pub proof fn law_errors_say_what_they_are(error: Error, text: String)
    requires
        call_ensures(Error::message, (&error,), text),
    ensures
        error matches Error::NotFound { name } ==> text@ == "Manifest entry not found → "@ + name@,
        error matches Error::Collision { name } ==> text@ == "Manifest entry collision → "@ + name@,
{
}

} // verus!
