use vstd::prelude::*;

verus! {

/// The error type shared by duration parsing, multiplier validation and the
/// time bank. Every fallible operation of this crate reports one of these
/// variants; the exact conditions under which each variant is returned are
/// stated in the `ensures` clauses of the functions that produce it.
#[derive(Clone, Copy, Debug, PartialEq, Eq, Structural)]
pub enum TrimsecError {
    /// A duration segment ended with a number that had no unit letter, or the
    /// parsed duration does not fit the machine representation.
    InvalidDurationFormat,
    /// A duration contained a unit letter other than `s`, `m`, `h` or `d`.
    InvalidTimeUnit,
    /// A numeric literal inside a duration was malformed (empty, more than
    /// one decimal point, no digits, or too many digits).
    NegativeDuration,
    /// Required command-line arguments were missing.
    InsufficientArgumentsProvided,
    /// The multiplier was not a well-formed decimal number.
    InvalidMultiplierFormat,
    /// The multiplier was outside the accepted range `[1, 100)`.
    MultiplierOutOfRange,
    /// The persisted time bank document could not be parsed.
    TimeBankUnloaded,
}

impl TrimsecError {
    /// The user-facing description of this error.
    pub open spec fn spec_message(self) -> Seq<char> {
        match self {
            TrimsecError::InvalidTimeUnit => "Specify duration in seconds (s), minutes (m), hours (h), or days (d)"@,
            TrimsecError::InvalidDurationFormat => "Invalid duration format!"@,
            TrimsecError::InsufficientArgumentsProvided => "You need to provide a duration and a multiplier (e.g. `trimsec 1h 2x`)."@,
            TrimsecError::NegativeDuration => "Duration must be a positive value."@,
            TrimsecError::InvalidMultiplierFormat => "Multiplier must be a positive float."@,
            TrimsecError::MultiplierOutOfRange => "Multiplier must be greater than 1x and less than 100x."@,
            TrimsecError::TimeBankUnloaded => "Time bank was not loaded."@,
        }
    }

    /// Returns the user-facing description of this error.
    pub fn message(&self) -> (r: &'static str)
        ensures
            r@ == self.spec_message(),
    {
        match self {
            TrimsecError::InvalidTimeUnit => "Specify duration in seconds (s), minutes (m), hours (h), or days (d)",
            TrimsecError::InvalidDurationFormat => "Invalid duration format!",
            TrimsecError::InsufficientArgumentsProvided => "You need to provide a duration and a multiplier (e.g. `trimsec 1h 2x`).",
            TrimsecError::NegativeDuration => "Duration must be a positive value.",
            TrimsecError::InvalidMultiplierFormat => "Multiplier must be a positive float.",
            TrimsecError::MultiplierOutOfRange => "Multiplier must be greater than 1x and less than 100x.",
            TrimsecError::TimeBankUnloaded => "Time bank was not loaded.",
        }
    }
}

} // verus!
