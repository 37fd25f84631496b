//! Failures of the codec.

use vstd::prelude::*;

verus! {

/// `std::io::Error`: carried from where it arose to the caller, never looked into.
#[verifier::external_type_specification]
#[verifier::external_body]
pub struct ExIoError(std::io::Error);

#[derive(Debug)]
pub enum Error {
    /// The byte stream under a bit reader or writer failed.
    BitStreamIOError(std::io::Error),
    /// A read would pass the recorded end of a bit stream, or met a malformed field.
    BitReaderError(&'static str),
    /// A sample is older than the one before it.
    AppendOrderError,
    /// A sample is more than `MAX_DELTA` seconds after the one before it.
    AppendDurationError,
    /// A sample does not have as many values as the block has dimensions.
    BadDimensionError,
}

impl Error {
    /// The text that `description` gives for this error.
    pub open spec fn description_text(&self) -> Seq<char> {
        match self {
            Error::BitStreamIOError(_) => "BitStream-IO error"@,
            Error::AppendOrderError => "Append order error"@,
            Error::AppendDurationError => "Append excess duration"@,
            Error::BitReaderError(_) => "BitStreamReader error"@,
            Error::BadDimensionError => "Bad Dimension error"@,
        }
    }

    /// The text that `to_string` gives for this error.
    pub open spec fn display_text(&self) -> Seq<char> {
        match self {
            Error::BitStreamIOError(_) => "BitStream-IO Error"@,
            Error::AppendOrderError => "Appending out of order item"@,
            Error::AppendDurationError => "Appending item with excessive duration"@,
            Error::BitReaderError(_) => "BitStreamReader error"@,
            Error::BadDimensionError => "Entry dimension must match that of writer"@,
        }
    }

    /// A short name for the kind of failure.
    pub fn description(&self) -> (text: &'static str)
        ensures
            text@ == self.description_text(),
    {
        match self {
            Error::BitStreamIOError(_) => "BitStream-IO error",
            Error::AppendOrderError => "Append order error",
            Error::AppendDurationError => "Append excess duration",
            Error::BitReaderError(_) => "BitStreamReader error",
            Error::BadDimensionError => "Bad Dimension error",
        }
    }

    /// The message shown to a user for this failure.
    pub fn to_string(&self) -> (text: String)
        ensures
            text@ == self.display_text(),
    {
        let text: &'static str = match self {
            Error::BitStreamIOError(_) => "BitStream-IO Error",
            Error::AppendOrderError => "Appending out of order item",
            Error::AppendDurationError => "Appending item with excessive duration",
            Error::BitReaderError(_) => "BitStreamReader error",
            Error::BadDimensionError => "Entry dimension must match that of writer",
        };
        text.to_owned()
    }
}

impl From<std::io::Error> for Error {
    fn from(error: std::io::Error) -> (e: Error) {
        Error::BitStreamIOError(error)
    }
}

impl vstd::std_specs::convert::FromSpecImpl<std::io::Error> for Error {
    open spec fn obeys_from_spec() -> bool {
        true
    }

    open spec fn from_spec(error: std::io::Error) -> Error {
        Error::BitStreamIOError(error)
    }
}

} // verus!
