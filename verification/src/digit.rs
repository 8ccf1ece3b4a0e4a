use vstd::prelude::*;

use crate::error::{SudokuError, SudokuResult};

verus! {

/// One of the digits `1..=9`.
#[derive(Debug, PartialEq, Eq, Structural, Hash, Clone, Copy)]
pub struct Digit(pub u8);

impl Digit {
    /// The digit lies in `1..=9`.
    pub open spec fn wf(self) -> bool {
        1 <= self.0 <= 9
    }

    /// `is_valid` in specifications.
    pub open spec fn spec_is_valid(value: u8) -> bool {
        1 <= value <= 9
    }

    /// Whether `value` is one of `1..=9`.
    #[verifier::when_used_as_spec(spec_is_valid)]
    pub fn is_valid(value: u8) -> (r: bool)
        ensures
            r == (1 <= value <= 9),
    {
        1 <= value && value <= 9
    }

    /// The digit `value`, or `InvalidDigit` where `value` is none.
    pub fn new(value: u8) -> (r: SudokuResult<Self>)
        ensures
            Self::is_valid(value) ==> r == Ok::<Digit, SudokuError>(Digit(value)),
            !Self::is_valid(value) ==> r == Err::<Digit, SudokuError>(
                SudokuError::InvalidDigit(value),
            ),
    {
        Self::try_from(value)
    }

    /// Wraps a value that the caller has already shown to be a digit.
    pub fn new_unchecked(value: u8) -> (r: Self)
        requires
            Self::is_valid(value),
        ensures
            r == Digit(value),
            r.wf(),
    {
        Digit(value)
    }
}

impl TryFrom<u8> for Digit {
    type Error = SudokuError;

    fn try_from(value: u8) -> (r: Result<Self, Self::Error>) {
        if Self::is_valid(value) {
            Ok(Digit(value))
        } else {
            Err(SudokuError::InvalidDigit(value))
        }
    }
}

impl vstd::std_specs::convert::TryFromSpecImpl<u8> for Digit {
    open spec fn obeys_try_from_spec() -> bool {
        true
    }

    open spec fn try_from_spec(value: u8) -> Result<Self, Self::Error> {
        if Digit::is_valid(value) {
            Ok(Digit(value))
        } else {
            Err(SudokuError::InvalidDigit(value))
        }
    }
}

} // verus!
