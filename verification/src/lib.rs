//! Renders a number as a human-readable string under a configurable policy:
//! rounding precision, magnitude scaling (decimal SI prefixes, binary
//! prefixes, scientific notation, or none), sign display, and
//! digit-group/decimal separators.

use vstd::prelude::*;

pub mod digits;
pub mod format;
pub mod laws;
pub mod number;
pub mod options;
pub mod round;
pub mod render;
pub mod scale;
pub mod text;

pub use round::Round;

pub use options::Rounding;
pub use options::Scaling;
pub use options::Sign;

verus! {

/// A formatter that scales, rounds, and displays numbers.
///
/// Built once via the setter functions and then reused across format calls;
/// formatting never mutates the configuration.
#[derive(Debug, PartialEq)]
pub struct Formatter {
    pub decimal_separator: String,
    pub group_separator: String,
    pub rounding: Rounding,
    pub scaling: Scaling,
    pub sign: Sign,
    pub trailing_zeros: bool,
}

impl Formatter {
    /// Constructs the default formatter: sign only when negative, spaced
    /// decimal scaling, rounding to 4 significant digits, "." as group
    /// separator, and "," as decimal separator, trailing zeros kept.
    pub fn new() -> (r: Self)
        ensures
            r.decimal_separator@ == ","@,
            r.group_separator@ == "."@,
            r.rounding == Rounding::SignificantDigits(4u8),
            r.scaling == Scaling::Decimal(true),
            r.sign == Sign::OnlyMinus,
            r.trailing_zeros == true,
    {
        Formatter {
            decimal_separator: ",".to_owned(),
            group_separator: ".".to_owned(),
            rounding: Rounding::SignificantDigits(4),
            scaling: Scaling::Decimal(true),
            sign: Sign::OnlyMinus,
            trailing_zeros: true,
        }
    }

    /// Sets the rounding mode and precision.
    pub fn set_rounding(self, rounding: Rounding) -> (r: Self)
        ensures
            r.rounding == rounding,
            r.decimal_separator == self.decimal_separator,
            r.group_separator == self.group_separator,
            r.scaling == self.scaling,
            r.sign == self.sign,
            r.trailing_zeros == self.trailing_zeros,
    {
        Formatter { rounding, ..self }
    }

    /// Sets the scaling mode.
    pub fn set_scaling(self, scaling: Scaling) -> (r: Self)
        ensures
            r.scaling == scaling,
            r.decimal_separator == self.decimal_separator,
            r.group_separator == self.group_separator,
            r.rounding == self.rounding,
            r.sign == self.sign,
            r.trailing_zeros == self.trailing_zeros,
    {
        Formatter { scaling, ..self }
    }

    /// Sets the group separator (between groups of 3 digits before the
    /// decimal separator) and the decimal separator (between the integer and
    /// fractional parts). An empty group separator disables grouping.
    ///
    /// Suspicious separators (an empty decimal separator, identical
    /// separators, a separator containing a digit) are not rejected: they can
    /// be detected with [`check_separators`] and reported by the caller.
    pub fn set_separators(self, group_separator: &str, decimal_separator: &str) -> (r: Self)
        ensures
            r.group_separator@ == group_separator@,
            r.decimal_separator@ == decimal_separator@,
            r.rounding == self.rounding,
            r.scaling == self.scaling,
            r.sign == self.sign,
            r.trailing_zeros == self.trailing_zeros,
    {
        Formatter {
            group_separator: group_separator.to_owned(),
            decimal_separator: decimal_separator.to_owned(),
            ..self
        }
    }

    /// Sets the sign mode.
    pub fn set_sign(self, sign: Sign) -> (r: Self)
        ensures
            r.sign == sign,
            r.decimal_separator == self.decimal_separator,
            r.group_separator == self.group_separator,
            r.rounding == self.rounding,
            r.scaling == self.scaling,
            r.trailing_zeros == self.trailing_zeros,
    {
        Formatter { sign, ..self }
    }

    /// Sets whether trailing fractional zeros (and a then-bare decimal
    /// separator) are kept or trimmed.
    pub fn set_trailing_zeros(self, trailing_zeros: bool) -> (r: Self)
        ensures
            r.trailing_zeros == trailing_zeros,
            r.decimal_separator == self.decimal_separator,
            r.group_separator == self.group_separator,
            r.rounding == self.rounding,
            r.scaling == self.scaling,
            r.sign == self.sign,
    {
        Formatter { trailing_zeros, ..self }
    }
}

impl Default for Formatter {
    /// The same configuration as [`Formatter::new`].
    fn default() -> (r: Self)
        ensures
            r.decimal_separator@ == ","@,
            r.group_separator@ == "."@,
            r.rounding == Rounding::SignificantDigits(4u8),
            r.scaling == Scaling::Decimal(true),
            r.sign == Sign::OnlyMinus,
            r.trailing_zeros == true,
    {
        Formatter::new()
    }
}

/// A misconfiguration of the separators that can make the output ambiguous.
///
/// Formatting itself never fails on such separators; a caller may route this
/// diagnostic to whatever warning sink it uses.
#[derive(Clone, Debug, PartialEq, Eq, Structural)]
pub enum SeparatorDiagnostic {
    /// The decimal separator is empty.
    EmptyDecimalSeparator,
    /// The group separator and the decimal separator are the same.
    IdenticalSeparators,
    /// The group separator contains a decimal digit.
    GroupSeparatorContainsDigit,
    /// The decimal separator contains a decimal digit.
    DecimalSeparatorContainsDigit,
}

/// Whether `c` is one of the decimal digits '0' through '9'.
pub open spec fn spec_is_digit(c: char) -> bool {
    48 <= c as u32 <= 57
}

/// Whether some character of `s` is a decimal digit.
pub open spec fn spec_contains_digit(s: Seq<char>) -> bool {
    exists|i: int| 0 <= i < s.len() && spec_is_digit(s[i])
}

/// The diagnostic that a pair of separators deserves: the first applicable
/// entry of [`SeparatorDiagnostic`], or `None` when the pair is unsuspicious.
pub open spec fn spec_check_separators(group: Seq<char>, decimal: Seq<char>) -> Option<
    SeparatorDiagnostic,
> {
    if decimal.len() == 0 {
        Some(SeparatorDiagnostic::EmptyDecimalSeparator)
    } else if group == decimal {
        Some(SeparatorDiagnostic::IdenticalSeparators)
    } else if spec_contains_digit(group) {
        Some(SeparatorDiagnostic::GroupSeparatorContainsDigit)
    } else if spec_contains_digit(decimal) {
        Some(SeparatorDiagnostic::DecimalSeparatorContainsDigit)
    } else {
        None
    }
}

/// Whether some character of `s` is a decimal digit.
fn contains_digit(s: &str) -> (r: bool)
    ensures
        r == spec_contains_digit(s@),
{
    let n = s.unicode_len();
    let mut i: usize = 0;
    while i < n
        invariant
            0 <= i <= n,
            n == s@.len(),
            forall|j: int| 0 <= j < i ==> !spec_is_digit(s@[j]),
        decreases n - i,
    {
        let c = s.get_char(i);
        if (c as u32) >= 48 && (c as u32) <= 57 {
            return true;
        }
        i = i + 1;
    }
    false
}

/// Whether the two string slices hold the same characters.
fn str_chars_eq(a: &str, b: &str) -> (r: bool)
    ensures
        r == (a@ == b@),
{
    let na = a.unicode_len();
    let nb = b.unicode_len();
    if na != nb {
        proof {
            assert(a@ != b@) by {
                if a@ == b@ {
                    assert(a@.len() == b@.len());
                }
            }
        }
        return false;
    }
    let mut i: usize = 0;
    while i < na
        invariant
            0 <= i <= na,
            na == a@.len(),
            na == b@.len(),
            forall|j: int| 0 <= j < i ==> a@[j] == b@[j],
        decreases na - i,
    {
        if a.get_char(i) != b.get_char(i) {
            return false;
        }
        i = i + 1;
    }
    proof {
        assert(a@ =~= b@);
    }
    true
}

/// Examines a pair of separators for configurations that make the output
/// ambiguous: an empty decimal separator, identical separators, or a
/// separator containing a digit. Returns the first problem found, in that
/// order, or `None` for an unsuspicious pair.
pub fn check_separators(group_separator: &str, decimal_separator: &str) -> (r: Option<
    SeparatorDiagnostic,
>)
    ensures
        r == spec_check_separators(group_separator@, decimal_separator@),
{
    if decimal_separator.unicode_len() == 0 {
        Some(SeparatorDiagnostic::EmptyDecimalSeparator)
    } else if str_chars_eq(group_separator, decimal_separator) {
        Some(SeparatorDiagnostic::IdenticalSeparators)
    } else if contains_digit(group_separator) {
        Some(SeparatorDiagnostic::GroupSeparatorContainsDigit)
    } else if contains_digit(decimal_separator) {
        Some(SeparatorDiagnostic::DecimalSeparatorContainsDigit)
    } else {
        None
    }
}

} // verus!
