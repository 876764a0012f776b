//! The manifest of a file: what the segments of the file hold, and where.

pub mod buffer;
pub mod column;
pub mod error;
pub mod number;
pub mod schema;
pub mod segment;

use crate::entries::{found, Entries};
use crate::io::region::Sector;
use self::error::Error;
use self::schema::Schema;
use vstd::prelude::*;

verus! {

/// The manifest of a file.
#[derive(Debug)]
pub struct Manifest {
    /// Schema segments by name.
    pub schemas: Entries<Schema>,
    /// Binary segments by name.
    pub bins: Entries<Sector>,
}

impl Default for Manifest {
    /// A manifest without entries.
    fn default() -> (manifest: Self)
        ensures
            manifest.schemas.held() == Seq::<(Seq<char>, Schema)>::empty(),
            manifest.bins.held() == Seq::<(Seq<char>, Sector)>::empty(),
    {
        Manifest { schemas: Entries::new(), bins: Entries::new() }
    }
}

impl Manifest {
    /// The schema of the given name.
    pub fn schema(&self, name: &str) -> (schema: Result<&Schema, Error>)
        ensures
            match schema {
                Ok(s) => found(self.schemas.held(), name@) == Some(*s),
                Err(Error::NotFound { name: missing }) => found(self.schemas.held(), name@) is None
                    && missing@ == name@,
                Err(_) => false,
            },
    {
        match self.schemas.get(name) {
            Some(schema) => Ok(schema),
            None => Err(Error::NotFound { name: name.to_owned() }),
        }
    }

    /// Registers a schema. Segments are immutable once written, so that a name which is taken is
    /// refused.
    pub fn register(&mut self, name: String, schema: Schema) -> (registered: Result<(), Error>)
        ensures
            final(self).bins == old(self).bins,
            match registered {
                Ok(_) => found(old(self).schemas.held(), name@) is None && exists|i: int|
                    0 <= i <= old(self).schemas.held().len() && final(self).schemas.held()
                        == #[trigger] old(self).schemas.held().insert(i, (name@, schema)),
                Err(Error::Collision { name: taken }) => found(old(self).schemas.held(), name@) is Some
                    && taken@ == name@ && final(self).schemas == old(self).schemas,
                Err(_) => false,
            },
    {
        match self.schemas.get(name.as_str()) {
            Some(_) => Err(Error::Collision { name }),
            None => {
                self.schemas.insert(name, schema);
                Ok(())
            },
        }
    }
}

} // verus!
