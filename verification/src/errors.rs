//! What can go wrong when a store is built, opened or queried.

use crate::query::QueryError;
use vstd::prelude::*;

verus! {

/// A failure of building, opening or querying a store.
#[derive(Clone, Debug, PartialEq, Eq)]
pub enum Error {
    /// A directory or file of the source tree could not be read.
    Io { path: String },
    /// The place where the store is to be built already holds one.
    StoreExists,
    /// The place where the store is looked for holds nothing.
    StoreMissing,
    /// What the place holds is not a store.
    StoreCorrupt,
    /// The query string is not a query.
    BadQuery { reason: QueryError },
}

/// What `describe` says of an error.
pub open spec fn description(e: Error) -> Seq<char> {
    match e {
        Error::Io { path } => "cannot read "@ + path@,
        Error::StoreExists => "the index exists already"@,
        Error::StoreMissing => "there is no index"@,
        Error::StoreCorrupt => "the index is damaged"@,
        Error::BadQuery { reason } => match reason {
            QueryError::UnknownField => "unknown field in the query"@,
            QueryError::MissingTerm => "a field of the query has no term"@,
            QueryError::UnbalancedQuote => "a quotation mark of the query is never closed"@,
        },
    }
}

impl Error {
    /// A description for the person at the terminal.
    pub fn describe(&self) -> (text: String)
        ensures
            text@ == description(*self),
    {
        match self {
            Error::Io { path } => String::from_str("cannot read ").concat(path.as_str()),
            Error::StoreExists => String::from_str("the index exists already"),
            Error::StoreMissing => String::from_str("there is no index"),
            Error::StoreCorrupt => String::from_str("the index is damaged"),
            Error::BadQuery { reason } => match reason {
                QueryError::UnknownField => String::from_str("unknown field in the query"),
                QueryError::MissingTerm => String::from_str("a field of the query has no term"),
                QueryError::UnbalancedQuote => String::from_str(
                    "a quotation mark of the query is never closed",
                ),
            },
        }
    }
}

} // verus!
