//! The ways in which decoding fails.

use vstd::prelude::*;

verus! {

/// Why a decode was refused. The first failure ends the decode: no partial
/// result is ever handed out.
#[derive(Clone, Copy, Debug, PartialEq, Eq, Structural)]
pub enum Error {
    /// Fewer bytes remain than the field needs, or an offset or a declared
    /// length reaches past the end of the input.
    Truncated,
    /// The word holds a number that the target type cannot represent.
    OutOfRange,
    /// The content is not valid in its encoding (a string that is not UTF-8).
    InvalidEncoding,
    /// Four well-formed bytes that name no known operation.
    UnknownSelector,
    /// Fewer than four bytes where a selector was expected.
    SelectorTooShort,
}

impl Error {
    /// The diagnostic text of each kind.
    pub open spec fn message_text(self) -> Seq<char> {
        match self {
            Error::Truncated => "tried to parse out of bounds"@,
            Error::OutOfRange => "value out of range"@,
            Error::InvalidEncoding => "invalid utf8"@,
            Error::UnknownSelector => "unknown selector"@,
            Error::SelectorTooShort => "tried to parse selector out of bounds"@,
        }
    }

    /// A short diagnostic for the failure response.
    pub fn message(&self) -> (text: &'static str)
        ensures
            text@ == self.message_text(),
    {
        match self {
            Error::Truncated => "tried to parse out of bounds",
            Error::OutOfRange => "value out of range",
            Error::InvalidEncoding => "invalid utf8",
            Error::UnknownSelector => "unknown selector",
            Error::SelectorTooShort => "tried to parse selector out of bounds",
        }
    }
}

} // verus!
