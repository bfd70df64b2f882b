//! Error kinds reported by configuration building and encoding.

use vstd::prelude::*;

verus! {

/// Everything that can go wrong while building a configuration or encoding.
///
/// Decoding is total and never reports an error.
#[derive(Clone, Copy, Debug, PartialEq, Eq, Structural)]
pub enum Error {
    /// The alphabet holds fewer than three distinct characters.
    AlphabetTooShort,
    /// A character appears more than once in the alphabet.
    AlphabetHasDuplicates,
    /// Every character of the alphabet is a decimal digit.
    AlphabetNumericOnly,
    /// A requested minimum length lies outside the range 0 to 255.
    MinLengthRange,
    /// An input number is negative.
    NegativeNumbers,
    /// Every rotation attempt produced a blocked candidate.
    BlocklistExhausted,
}

impl Error {
    /// A human-readable description of the error.
    pub fn message(&self) -> (r: &'static str)
        ensures
            r@.len() > 0,
    {
        proof {
            reveal_strlit("Alphabet must contain at least 3 distinct characters");
            reveal_strlit("Alphabet must not contain repeated characters");
            reveal_strlit("Alphabet must not consist solely of digits");
            reveal_strlit("Min length has to be between 0 and 255");
            reveal_strlit("Numbers cannot be negative");
            reveal_strlit("Reached max attempts to re-generate the id");
        }
        match self {
            Error::AlphabetTooShort => "Alphabet must contain at least 3 distinct characters",
            Error::AlphabetHasDuplicates => "Alphabet must not contain repeated characters",
            Error::AlphabetNumericOnly => "Alphabet must not consist solely of digits",
            Error::MinLengthRange => "Min length has to be between 0 and 255",
            Error::NegativeNumbers => "Numbers cannot be negative",
            Error::BlocklistExhausted => "Reached max attempts to re-generate the id",
        }
    }
}

} // verus!
