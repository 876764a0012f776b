//! The crate-level error.

use crate::text::{decimal, digits, joined};
use vstd::prelude::*;
use vstd::string::to_string_from_display_ensures;

verus! {

/// An error of the file that backs a dataset; its contents are not examined.
#[verifier::external_type_specification]
#[verifier::external_body]
pub struct ExIoError(std::io::Error);

/// Errors that arise when working with datasets, schemas or columns.
#[non_exhaustive]
#[derive(Debug)]
pub enum Error {
    /// Underlying error from the file backing the dataset.
    Io(std::io::Error),
    /// CBOR encode or decode failure for a manifest or schema payload.
    Cbor,
    /// On-disk data is truncated or structurally invalid.
    Corrupt,
    /// File magic bytes did not match the expected signature.
    Magic,
    /// File version not recognised.
    Version(u8),
    /// Unsupported construct encountered while building a schema.
    Schema(&'static str),
    /// Type does not exactly match the existing on-disk schema.
    SchemaMismatch,
    /// Type cannot project from the existing on-disk schema.
    SchemaProjection,
    /// Referenced schema name not present in the manifest.
    SchemaMissing(String),
    /// Referenced column name not present in the schema.
    Column(String),
    /// Dictionary type collision in the dataset cache.
    DictionaryKind,
    /// Duplicate key on dictionary push.
    DuplicateKey,
    /// Row count exceeded the largest that a segment can record.
    Count,
    /// Manifest decode failed and rebuilding from segments did not succeed.
    Manifest,
    /// Filter applied to an incompatible column.
    Filter(&'static str),
    /// Join leg type or column mismatch.
    Join(&'static str),
}

impl Error {
    /// The text of the error, where `io` is the text of the underlying one if there is one.
    pub open spec fn text(&self, io: Seq<char>) -> Seq<char> {
        match *self {
            Error::Io(_) => "io: "@ + io,
            Error::Cbor => "cbor encode or decode failed"@,
            Error::Corrupt => "corrupt file data"@,
            Error::Magic => "invalid magic bytes"@,
            Error::Version(v) => "unrecognised version: "@ + decimal(v as nat),
            Error::Schema(s) => "schema build: "@ + s@,
            Error::SchemaMismatch => "schema mismatch"@,
            Error::SchemaProjection => "schema cannot project"@,
            Error::SchemaMissing(s) => "schema not found: "@ + s@,
            Error::Column(c) => "column not found: "@ + c@,
            Error::DictionaryKind => "dictionary type collision"@,
            Error::DuplicateKey => "duplicate dictionary key"@,
            Error::Count => "row count overflow"@,
            Error::Manifest => "manifest decode failed"@,
            Error::Filter(s) => "filter: "@ + s@,
            Error::Join(s) => "join: "@ + s@,
        }
    }

    /// The text of the error, given the text of the underlying one if there is one.
    pub fn message_with(&self, io: &str) -> (text: String)
        ensures
            text@ == self.text(io@),
    {
        match self {
            Error::Io(_) => joined("io: ", io),
            Error::Cbor => "cbor encode or decode failed".to_owned(),
            Error::Corrupt => "corrupt file data".to_owned(),
            Error::Magic => "invalid magic bytes".to_owned(),
            Error::Version(v) => joined("unrecognised version: ", digits(*v as u64).as_str()),
            Error::Schema(s) => joined("schema build: ", s),
            Error::SchemaMismatch => "schema mismatch".to_owned(),
            Error::SchemaProjection => "schema cannot project".to_owned(),
            Error::SchemaMissing(s) => joined("schema not found: ", s.as_str()),
            Error::Column(c) => joined("column not found: ", c.as_str()),
            Error::DictionaryKind => "dictionary type collision".to_owned(),
            Error::DuplicateKey => "duplicate dictionary key".to_owned(),
            Error::Count => "row count overflow".to_owned(),
            Error::Manifest => "manifest decode failed".to_owned(),
            Error::Filter(s) => joined("filter: ", s),
            Error::Join(s) => joined("join: ", s),
        }
    }

    /// The text of the error.
    pub fn message(&self) -> (text: String)
        ensures
            self matches Error::Io(e) ==> exists|io: String| #[trigger]
                to_string_from_display_ensures::<std::io::Error>(&e, io) && text@ == self.text(io@),
            self !is Io ==> text@ == self.text(Seq::empty()),
    {
        match self {
            Error::Io(e) => {
                let io = e.to_string();
                self.message_with(io.as_str())
            },
            _ => {
                let text = self.message_with("");
                proof {
                    reveal_strlit("");
                    assert(""@ =~= Seq::<char>::empty());
                }
                text
            },
        }
    }

    /// The underlying error, if there is one.
    pub fn source(&self) -> (source: Option<&std::io::Error>)
        ensures
            source == (match *self {
                Error::Io(e) => Some(&e),
                _ => None,
            }),
    {
        match self {
            Error::Io(e) => Some(e),
            _ => None,
        }
    }
}

impl From<std::io::Error> for Error {
    fn from(e: std::io::Error) -> (error: Self) {
        Error::Io(e)
    }
}

impl vstd::std_specs::convert::FromSpecImpl<std::io::Error> for Error {
    open spec fn obeys_from_spec() -> bool {
        true
    }

    open spec fn from_spec(e: std::io::Error) -> Self {
        Error::Io(e)
    }
}

// ---------------------------------------------------------------- laws

/// Each error says what it is, and with it the text that it carries.
pub proof fn law_errors_say_what_they_are(error: Error, io: &str, text: String)
    requires
        call_ensures(Error::message_with, (&error, io), text),
    ensures
        error is Cbor ==> text@ == "cbor encode or decode failed"@,
        error is Corrupt ==> text@ == "corrupt file data"@,
        error is Magic ==> text@ == "invalid magic bytes"@,
        error is SchemaMismatch ==> text@ == "schema mismatch"@,
        error is SchemaProjection ==> text@ == "schema cannot project"@,
        error is DictionaryKind ==> text@ == "dictionary type collision"@,
        error is DuplicateKey ==> text@ == "duplicate dictionary key"@,
        error is Count ==> text@ == "row count overflow"@,
        error is Manifest ==> text@ == "manifest decode failed"@,
        error is Io ==> text@ == "io: "@ + io@,
        error matches Error::Version(v) ==> text@ == "unrecognised version: "@ + decimal(v as nat),
        error matches Error::Schema(s) ==> text@ == "schema build: "@ + s@,
        error matches Error::SchemaMissing(s) ==> text@ == "schema not found: "@ + s@,
        error matches Error::Column(c) ==> text@ == "column not found: "@ + c@,
        error matches Error::Filter(s) ==> text@ == "filter: "@ + s@,
        error matches Error::Join(s) ==> text@ == "join: "@ + s@,
{
}

/// An underlying error is the source of the error that holds it, and no other error has one.
pub proof fn law_underlying_errors_are_sources(error: Error, source: Option<&std::io::Error>)
    requires
        call_ensures(Error::source, (&error,), source),
    ensures
        source is Some <==> error is Io,
        error matches Error::Io(e) ==> source == Some(&e),
{
}

} // verus!
