//! Error types of the library.

use vstd::prelude::*;

verus! {

/// A time component that lies outside the range a datetime admits.
#[derive(Debug, Clone, Copy, Hash, PartialEq, Eq, Structural, PartialOrd, Ord)]
pub enum ComponentOutOfRangeError {
    /// Date component (year, month, day) out of range.
    Date,
    /// Time component (hour, minute, second) out of range.
    Time,
}

impl ComponentOutOfRangeError {
    /// The text that describes which component was out of range.
    pub open spec fn spec_message(self) -> Seq<char> {
        match self {
            ComponentOutOfRangeError::Date => "Date component (year, month, day) out of range"@,
            ComponentOutOfRangeError::Time => "Time component (hour, minute, second) out of range"@,
        }
    }

    /// Describes the error in words.
    pub fn message(&self) -> (r: &'static str)
        ensures
            r@ == self.spec_message(),
    {
        match self {
            ComponentOutOfRangeError::Date => "Date component (year, month, day) out of range",
            ComponentOutOfRangeError::Time => "Time component (hour, minute, second) out of range",
        }
    }
}

/// A host path whose bytes cannot be represented as a byte string.
#[derive(Debug, Clone, Copy, Hash, PartialEq, Eq, Structural, PartialOrd, Ord)]
pub struct ConvertBytesError;

impl ConvertBytesError {
    /// Creates the error.
    pub fn new() -> (r: ConvertBytesError) {
        ConvertBytesError
    }

    /// Describes the error in words.
    pub fn message(&self) -> (r: &'static str)
        ensures
            r@ == "Could not convert between bytes and platform string"@,
    {
        "Could not convert between bytes and platform string"
    }
}

} // verus!
