//! The configuration options of the formatter: rounding mode, scaling mode,
//! and sign mode.

use vstd::prelude::*;

verus! {

/// How a value is rounded before it is rendered.
#[derive(Clone, Debug, PartialEq, Eq, Structural)]
pub enum Rounding {
    /// Round to the digit at 10^n; contains the precision n.
    Magnitude(i16),
    /// Round to n significant digits; contains the precision n.
    /// Rounding to 0 significant digits always yields zero.
    SignificantDigits(u8),
}

/// How a value is scaled to a unit prefix before it is rendered.
#[derive(Clone, Debug, PartialEq, Eq, Structural)]
pub enum Scaling {
    /// Scale by steps of 2^10 = 1024; falls back to base-2 scientific
    /// notation when no prefix covers the magnitude. Contains whether to put
    /// a space between the number and the unit prefix.
    Binary(bool),
    /// Scale by steps of 10^3 = 1000; falls back to base-10 scientific
    /// notation when no prefix covers the magnitude. Contains whether to put
    /// a space between the number and the unit prefix.
    Decimal(bool),
    /// No scaling and no fallback to scientific notation.
    NoScaling,
    /// Always base-10 scientific notation.
    Scientific,
}

/// When a sign is shown in front of the rendered number.
#[derive(Clone, Debug, PartialEq, Eq, Structural)]
pub enum Sign {
    /// Always show a sign, even when the number is positive.
    Always,
    /// Only show a sign when the number is negative.
    OnlyMinus,
}

} // verus!
