//! The error taxonomy of header decoding.

use vstd::prelude::*;

verus! {

/// Declares `std::str::Utf8Error`, carried by [`ScgiError::Utf8`].
#[verifier::external_type_specification]
#[verifier::external_body]
pub struct ExUtf8Error(std::str::Utf8Error);

/// Declares `std::io::Error`, carried by [`ScgiError::IO`].
#[verifier::external_type_specification]
#[verifier::external_body]
pub struct ExIoError(std::io::Error);

/// SCGI parsing errors.
#[derive(Debug)]
pub enum ScgiError {
    /// The length digits do not make an integer (none, too many, or too large).
    BadLength,
    /// The length or the headers are not in UTF-8.
    Utf8(std::str::Utf8Error),
    /// Netstring sanity checks fail; holds the length digits read so far.
    WrongLength(String),
    /// The block is not a whole number of null-terminated name/value pairs.
    WrongHeaders,
    /// The stream was closed before the frame was complete.
    EOF,
    /// Any other failure of the transport.
    IO(std::io::Error),
}

impl ScgiError {
    /// Short name of the variant, for diagnostics.
    pub fn kind_name(&self) -> (r: &'static str)
        ensures
            r@ == match self {
                ScgiError::BadLength => "BadLength"@,
                ScgiError::Utf8(_) => "Utf8"@,
                ScgiError::WrongLength(_) => "WrongLength"@,
                ScgiError::WrongHeaders => "WrongHeaders"@,
                ScgiError::EOF => "EOF"@,
                ScgiError::IO(_) => "IO"@,
            },
    {
        match self {
            ScgiError::BadLength => "BadLength",
            ScgiError::Utf8(_) => "Utf8",
            ScgiError::WrongLength(_) => "WrongLength",
            ScgiError::WrongHeaders => "WrongHeaders",
            ScgiError::EOF => "EOF",
            ScgiError::IO(_) => "IO",
        }
    }
}

impl From<std::io::Error> for ScgiError {
    fn from(e: std::io::Error) -> (r: ScgiError)
        ensures
            r == ScgiError::IO(e),
    {
        ScgiError::IO(e)
    }
}

impl vstd::std_specs::convert::FromSpecImpl<std::io::Error> for ScgiError {
    open spec fn obeys_from_spec() -> bool {
        true
    }

    open spec fn from_spec(e: std::io::Error) -> ScgiError {
        ScgiError::IO(e)
    }
}

impl From<std::str::Utf8Error> for ScgiError {
    fn from(e: std::str::Utf8Error) -> (r: ScgiError)
        ensures
            r == ScgiError::Utf8(e),
    {
        ScgiError::Utf8(e)
    }
}

impl vstd::std_specs::convert::FromSpecImpl<std::str::Utf8Error> for ScgiError {
    open spec fn obeys_from_spec() -> bool {
        true
    }

    open spec fn from_spec(e: std::str::Utf8Error) -> ScgiError {
        ScgiError::Utf8(e)
    }
}

} // verus!
