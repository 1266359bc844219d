//! The ways in which an operation of this library fails.

use vstd::prelude::*;

verus! {

/// Why an operation was refused. Every failure is permanent: the same call
/// fails in the same way again.
#[derive(Debug, Clone, Copy, PartialEq, Eq, Structural)]
pub enum Error {
    /// The coordinates do not satisfy the equation of the curve.
    InvalidPoint,
    /// The length of a buffer is none of those that an encoded point has.
    InvalidLength,
    /// A coordinate is not below the modulus of the field.
    InvalidCoordinate,
    /// The first byte of a buffer is not a known tag.
    InvalidTag,
    /// Two scalars of different group order met in one operation.
    GroupMismatch,
}

impl Error {
    /// A short description of the failure.
    pub fn message(&self) -> (r: &'static str)
        ensures
            r@ == match *self {
                Error::InvalidPoint => "not valid point"@,
                Error::InvalidLength => "wrong input buffer size"@,
                Error::InvalidCoordinate => "invalid coordinate"@,
                Error::InvalidTag => "invalid tag specified"@,
                Error::GroupMismatch => "elements of different groups"@,
            },
    {
        match self {
            Error::InvalidPoint => "not valid point",
            Error::InvalidLength => "wrong input buffer size",
            Error::InvalidCoordinate => "invalid coordinate",
            Error::InvalidTag => "invalid tag specified",
            Error::GroupMismatch => "elements of different groups",
        }
    }
}

} // verus!
