//! The closed set of error kinds surfaced by the engine.

use vstd::prelude::*;

verus! {

/// An engine error.  Every kind carries its diagnostic as text; `MetaError`
/// wraps the error that was being reported when a second failure struck.
#[derive(Debug)]
pub enum Error {
    IOError(String),
    PathError(String),
    SerdeError(String),
    SchemaError(String),
    MetaError(Box<Error>),
    StringForm(String),
}

impl Error {
    /// The single human-readable line that every kind serialises to; a
    /// nested error collapses to its inner text.
    pub fn to_text(&self) -> (r: String)
        ensures
            r@ == self.spec_text(),
        decreases *self,
    {
        match self {
            Error::IOError(msg) => msg.clone(),
            Error::PathError(msg) => msg.clone(),
            Error::SerdeError(msg) => msg.clone(),
            Error::SchemaError(msg) => msg.clone(),
            Error::MetaError(inner) => inner.to_text(),
            Error::StringForm(msg) => msg.clone(),
        }
    }

    /// The text carried by an error, seen through any `MetaError` wrappers.
    pub open spec fn spec_text(&self) -> Seq<char>
        decreases *self,
    {
        match self {
            Error::IOError(msg) => msg@,
            Error::PathError(msg) => msg@,
            Error::SerdeError(msg) => msg@,
            Error::SchemaError(msg) => msg@,
            Error::MetaError(inner) => inner.spec_text(),
            Error::StringForm(msg) => msg@,
        }
    }
}

} // verus!
