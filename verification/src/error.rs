//! Error type for the fallible (`try_*`) conversions.

use vstd::prelude::*;

verus! {

/// Error returned by the `try_*` conversions when a value cannot be
/// represented in the target fixed-point type.
///
/// The infallible constructors (`from_count`, `from_bits`) never produce
/// this: they wrap instead, like an RTL register. Use the `try_*` variants
/// when a testbench needs to detect or assert on out-of-range values.
#[derive(Debug, Clone, Copy, PartialEq, Eq, Structural)]
#[non_exhaustive]
pub enum FixedError {
    /// The value lies outside the representable range of the target type, or
    /// (for `try_from_bits`) sets bits above the low `I + F`.
    OutOfRange,
    /// The value's magnitude fits, but it is not exactly representable in the
    /// target type: fractional precision would be lost.
    Inexact,
    /// The floating-point value was NaN or infinite.
    NotFinite,
}

impl FixedError {
    /// A human-readable description of the error.
    pub fn message(&self) -> (s: &'static str)
        ensures
            *self == FixedError::OutOfRange ==> s@ == "value out of range for the target fixed-point type"@,
            *self == FixedError::Inexact ==> s@ == "value not exactly representable in the target fixed-point type"@,
            *self == FixedError::NotFinite ==> s@ == "floating-point value was NaN or infinite"@,
    {
        match self {
            FixedError::OutOfRange => "value out of range for the target fixed-point type",
            FixedError::Inexact => "value not exactly representable in the target fixed-point type",
            FixedError::NotFinite => "floating-point value was NaN or infinite",
        }
    }
}

} // verus!
