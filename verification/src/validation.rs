//! Errors reported by the value-type constructors.

use vstd::prelude::*;

verus! {

/// Why a raw input string was rejected by a value-type constructor.
#[derive(Debug, Clone, Copy, PartialEq, Eq, Structural)]
pub enum Error {
    TooShort,
    TooLong,
    InvalidEmail,
    InvalidPageToken,
}

impl Error {
    /// The text `describe` returns for this rejection.
    pub open spec fn spec_describe(&self) -> Seq<char> {
        match *self {
            Error::TooShort => "too short"@,
            Error::TooLong => "too long"@,
            Error::InvalidEmail => "invalid email"@,
            Error::InvalidPageToken => "invalid page token"@,
        }
    }

    /// A short description of the rejection, suitable for error messages.
    pub fn describe(&self) -> (r: String)
        ensures
            r@ == self.spec_describe(),
    {
        match self {
            Error::TooShort => "too short".to_owned(),
            Error::TooLong => "too long".to_owned(),
            Error::InvalidEmail => "invalid email".to_owned(),
            Error::InvalidPageToken => "invalid page token".to_owned(),
        }
    }
}

} // verus!
