//! The error taxonomy of the overlay core.
//!
//! Configuration errors are fatal at startup, application errors travel
//! in-band inside query responses, and internal errors mark invariant
//! violations that a caller must treat as unrecoverable.

use vstd::prelude::*;

verus! {

/// A fallible core operation returns one of these kinds, together with a
/// human-readable detail string.
#[derive(Debug, Clone)]
pub enum Error {
    /// A configuration value was rejected (for example a leaf-set parameter
    /// below the minimum).
    Config(String),
    /// An internal invariant did not hold for the requested operation.
    Internal(String),
    /// An application-level error carried in-band: a missing key or a
    /// missing value.
    Value(String),
    /// An input could not be parsed.
    Parse(String),
}

impl Error {
    /// A short label for the kind of error, usable in logs and messages.
    pub fn kind_name(&self) -> (r: &'static str)
        ensures
            r@ == match self {
                Error::Config(_) => "config"@,
                Error::Internal(_) => "internal"@,
                Error::Value(_) => "value"@,
                Error::Parse(_) => "parse"@,
            },
    {
        match self {
            Error::Config(_) => "config",
            Error::Internal(_) => "internal",
            Error::Value(_) => "value",
            Error::Parse(_) => "parse",
        }
    }

    /// The detail string that the error was built with.
    pub fn detail(&self) -> (r: &String)
        ensures
            r == match self {
                Error::Config(d) => d,
                Error::Internal(d) => d,
                Error::Value(d) => d,
                Error::Parse(d) => d,
            },
    {
        match self {
            Error::Config(d) => d,
            Error::Internal(d) => d,
            Error::Value(d) => d,
            Error::Parse(d) => d,
        }
    }
}

} // verus!
