//! Errors reported by the codec. All are returned to the caller of the
//! failing encode call and propagate upward through nested scopes unchanged.

use vstd::prelude::*;
use crate::constraints::Range;

verus! {

/// A non-fatal encoding error.
#[derive(Clone, PartialEq, Eq, Debug)]
pub enum Error {
    /// A declared length violates a non-extensible size bound.
    InvalidLength { length: usize, expected: Range<usize> },
    /// A caller-defined validation failure, such as a character outside the
    /// permitted alphabet.
    Custom { msg: String },
}

impl Error {
    /// `Ok` when `length` lies within `expected`; the invalid-length error,
    /// carrying both, otherwise.
    pub fn check_length(length: usize, expected: &Range<usize>) -> (r: Result<(), Error>)
        ensures
            match r {
                Ok(_) => expected.spec_contains(length as int),
                Err(e) => !expected.spec_contains(length as int) && e == (Error::InvalidLength {
                    length,
                    expected: *expected,
                }),
            },
    {
        if expected.contains(&length) {
            Ok(())
        } else {
            Err(Error::InvalidLength { length, expected: *expected })
        }
    }

    /// A caller-defined validation failure carrying a message.
    pub fn custom(msg: String) -> (r: Error)
        ensures
            r == (Error::Custom { msg }),
    {
        Error::Custom { msg }
    }
}

} // verus!
