//! Error types for the LSM engine.

use vstd::prelude::*;

verus! {

/// Declares the error type of the standard library's input and output.
#[verifier::external_type_specification]
#[verifier::external_body]
pub struct ExIoError(std::io::Error);

/// Errors that can occur in the LSM engine.
#[derive(Debug)]
#[non_exhaustive]
pub enum Error {
    /// An I/O error occurred (log, table, or filesystem).
    Io(std::io::Error),
    /// Data corruption was detected during recovery or read.
    Corruption(String),
    /// A lock was poisoned (a thread panicked while holding it).
    Poisoned,
}

/// A specialized `Result` type for LSM engine operations.
pub type Result<T> = core::result::Result<T, Error>;

/// The standard library's `to_string` of an I/O error. The text depends on the
/// operating system, so nothing is claimed of it.
#[verifier::external_body]
fn io_error_text(e: &std::io::Error) -> String {
    e.to_string()
}

impl Error {
    /// The message for users that describes this error. The description of an
    /// I/O error, which follows the fixed prefix, comes from the operating
    /// system.
    pub fn to_string(&self) -> (r: String)
        ensures
            match *self {
                Error::Io(_) => "I/O error: "@.is_prefix_of(r@),
                Error::Corruption(message) => r@ == "corruption: "@ + message@,
                Error::Poisoned => r@ == "lock poisoned"@,
            },
    {
        match self {
            Error::Io(e) => {
                let mut message: String = "I/O error: ".to_owned();
                let text: String = io_error_text(e);
                message.append(text.as_str());
                message
            },
            Error::Corruption(detail) => {
                let mut message: String = "corruption: ".to_owned();
                message.append(detail.as_str());
                message
            },
            Error::Poisoned => "lock poisoned".to_owned(),
        }
    }
}

impl From<std::io::Error> for Error {
    fn from(e: std::io::Error) -> (r: Self) {
        Error::Io(e)
    }
}

impl vstd::std_specs::convert::FromSpecImpl<std::io::Error> for Error {
    open spec fn obeys_from_spec() -> bool {
        true
    }

    open spec fn from_spec(e: std::io::Error) -> Self {
        Error::Io(e)
    }
}

} // verus!
