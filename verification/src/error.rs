//! Error types for the learned index.

use vstd::prelude::*;

verus! {

/// Result type alias for index operations.
pub type Result<T> = core::result::Result<T, Error>;

/// Errors that can occur during index operations.
#[derive(Debug, PartialEq, Eq)]
#[non_exhaustive]
pub enum Error {
    /// The input data is empty.
    EmptyData,
    /// The input data is not sorted.
    NotSorted,
    /// A key could not be converted to a model input.
    InvalidKey {
        /// Description of what went wrong.
        detail: String,
    },
}

impl Clone for Error {
    fn clone(&self) -> (r: Self)
        ensures
            r == *self,
    {
        match self {
            Error::EmptyData => Error::EmptyData,
            Error::NotSorted => Error::NotSorted,
            Error::InvalidKey { detail } => Error::InvalidKey { detail: detail.clone() },
        }
    }
}

impl Error {
    /// The message for users that describes this error.
    pub fn to_string(&self) -> (r: String)
        ensures
            r@ == match *self {
                Error::EmptyData => "input data is empty"@,
                Error::NotSorted => "input data is not sorted"@,
                Error::InvalidKey { detail } => "invalid key: "@ + detail@,
            },
    {
        match self {
            Error::EmptyData => "input data is empty".to_owned(),
            Error::NotSorted => "input data is not sorted".to_owned(),
            Error::InvalidKey { detail } => {
                let mut message: String = "invalid key: ".to_owned();
                message.append(detail.as_str());
                message
            },
        }
    }
}

} // verus!
