//! Sanitizing of values received over the wire.
//!
//! Sanitizing checks that indices are in range and that values lie within
//! their static bounds; it does not check signatures.

use vstd::prelude::*;

verus! {

/// Why a value failed to sanitize.
#[derive(PartialEq, Eq, Debug, Clone, Copy, Structural)]
pub enum SanitizeError {
    IndexOutOfBounds,
    ValueOutOfBounds,
    InvalidValue,
}

impl SanitizeError {
    /// The human readable message of the error.
    pub fn message(&self) -> (s: &'static str)
        ensures
            s@ == self.spec_message(),
    {
        match self {
            SanitizeError::IndexOutOfBounds => "index out of bounds",
            SanitizeError::ValueOutOfBounds => "value out of bounds",
            SanitizeError::InvalidValue => "invalid value",
        }
    }

    pub open spec fn spec_message(&self) -> Seq<char> {
        match self {
            SanitizeError::IndexOutOfBounds => "index out of bounds"@,
            SanitizeError::ValueOutOfBounds => "value out of bounds"@,
            SanitizeError::InvalidValue => "invalid value"@,
        }
    }
}

/// A value that can be checked for being well formed after it was received.
///
/// Implementations descend through the value and sanitize every member.
pub trait Sanitize {
    /// What sanitizing the value gives: `Ok` when it is well formed.
    spec fn sanitized(&self) -> Result<(), SanitizeError>;

    fn sanitize(&self) -> (r: Result<(), SanitizeError>)
        ensures
            r == self.sanitized(),
    ;
}

/// What sanitizing each item of `s` in turn gives: the first error, if any.
pub open spec fn sanitize_all<T: Sanitize>(s: Seq<T>) -> Result<(), SanitizeError>
    decreases s.len(),
{
    if s.len() == 0 {
        Ok(())
    } else {
        match s[0].sanitized() {
            Ok(()) => sanitize_all(s.drop_first()),
            Err(e) => Err(e),
        }
    }
}

impl<T: Sanitize> Sanitize for Vec<T> {
    open spec fn sanitized(&self) -> Result<(), SanitizeError> {
        sanitize_all(self@)
    }

    fn sanitize(&self) -> (r: Result<(), SanitizeError>) {
        let mut i: usize = 0;
        assert(self@.skip(0) =~= self@);
        while i < self.len()
            invariant
                i <= self.len(),
                sanitize_all(self@) == sanitize_all(self@.skip(i as int)),
            decreases self.len() - i,
        {
            assert(self@.skip(i as int).drop_first() =~= self@.skip(i + 1));
            match self[i].sanitize() {
                Ok(()) => {},
                Err(e) => {
                    return Err(e);
                },
            }
            i += 1;
        }
        assert(self@.skip(i as int).len() == 0);
        Ok(())
    }
}

} // verus!
