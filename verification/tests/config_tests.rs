use scaler::Formatter;
use scaler::Round;
use scaler::Rounding;
use scaler::Scaling;
use scaler::SeparatorDiagnostic;
use scaler::Sign;
use scaler::check_separators;
use scaler::number::Dec;

#[test]
fn default_configuration() {
    let f = Formatter::new();
    assert_eq!(f.decimal_separator, ",");
    assert_eq!(f.group_separator, ".");
    assert!(f.rounding == Rounding::SignificantDigits(4));
    assert!(f.scaling == Scaling::Decimal(true));
    assert!(f.sign == Sign::OnlyMinus);
    assert!(f.trailing_zeros);
}

#[test]
fn setters_replace_one_field() {
    let f = Formatter::new()
        .set_rounding(Rounding::Magnitude(-2))
        .set_scaling(Scaling::Binary(false))
        .set_sign(Sign::Always)
        .set_separators(" ", ".")
        .set_trailing_zeros(false);
    assert!(f.rounding == Rounding::Magnitude(-2));
    assert!(f.scaling == Scaling::Binary(false));
    assert!(f.sign == Sign::Always);
    assert_eq!(f.group_separator, " ");
    assert_eq!(f.decimal_separator, ".");
    assert!(!f.trailing_zeros);
}

#[test]
fn round_to_magnitude() {
    // 42.069 rounded at the magnitudes around its digits
    let x = Dec::from_parts(false, 42069, -3);
    let r = x.round_mag(-4);
    assert_eq!((r.digits.clone(), r.exponent), (vec![9, 6, 0, 2, 4], -3));
    let r = x.round_mag(-3);
    assert_eq!((r.digits.clone(), r.exponent), (vec![9, 6, 0, 2, 4], -3));
    let r = x.round_mag(-2);
    assert_eq!((r.digits.clone(), r.exponent), (vec![7, 0, 2, 4], -2));
    let r = x.round_mag(-1);
    assert_eq!((r.digits.clone(), r.exponent), (vec![1, 2, 4], -1));
    let r = x.round_mag(0);
    assert_eq!((r.digits.clone(), r.exponent), (vec![2, 4], 0));
    let r = x.round_mag(1);
    assert_eq!((r.digits.clone(), r.exponent), (vec![4], 1));
    let r = x.round_mag(2);
    assert_eq!((r.digits.clone(), r.exponent), (vec![], 2));
}

#[test]
fn round_to_magnitude_ties_to_even() {
    let x = Dec::from_parts(false, 5, -1);
    let r = x.round_mag(0);
    assert_eq!(r.digits, vec![]);
    let x = Dec::from_parts(false, 15, -1);
    let r = x.round_mag(0);
    assert_eq!((r.digits.clone(), r.exponent), (vec![2], 0));
}

#[test]
fn round_to_magnitude_of_zero() {
    let x = Dec::from_parts(false, 0, 0);
    let r = x.round_mag(5);
    assert_eq!((r.digits.clone(), r.exponent, r.negative), (vec![], 0, false));
    let x = Dec::from_parts(true, 0, 3);
    let r = x.round_mag(-7);
    assert_eq!((r.digits.clone(), r.exponent, r.negative), (vec![], 0, false));
}

#[test]
fn round_to_significant_digits() {
    let x = Dec::from_parts(false, 12345, -2);
    let r = x.round_sig(0);
    assert_eq!((r.digits.clone(), r.exponent, r.negative), (vec![], 0, false));
    let r = x.round_sig(1);
    assert_eq!((r.digits.clone(), r.exponent), (vec![1], 2));
    let r = x.round_sig(2);
    assert_eq!((r.digits.clone(), r.exponent), (vec![2, 1], 1));
    let r = x.round_sig(3);
    assert_eq!((r.digits.clone(), r.exponent), (vec![3, 2, 1], 0));
    let r = x.round_sig(4);
    assert_eq!((r.digits.clone(), r.exponent), (vec![4, 3, 2, 1], -1));
    let r = x.round_sig(5);
    assert_eq!((r.digits.clone(), r.exponent), (vec![5, 4, 3, 2, 1], -2));
}

#[test]
fn round_of_zero_significants_is_zero() {
    let x = Dec::from_parts(true, 98765, 10);
    let r = x.round_sig(0);
    assert_eq!((r.digits.clone(), r.exponent, r.negative), (vec![], 0, false));
}

#[test]
fn separator_diagnostics() {
    assert!(check_separators(".", "") == Some(SeparatorDiagnostic::EmptyDecimalSeparator));
    assert!(check_separators(",", ",") == Some(SeparatorDiagnostic::IdenticalSeparators));
    assert!(check_separators("0", ",") == Some(SeparatorDiagnostic::GroupSeparatorContainsDigit));
    assert!(check_separators(".", "9,") == Some(SeparatorDiagnostic::DecimalSeparatorContainsDigit));
    assert!(check_separators(".", ",") == None);
    assert!(check_separators("", ",") == None);
    assert!(check_separators(" ", "x") == None);
}

#[test]
fn default_matches_new() {
    let f = Formatter::default();
    assert_eq!(f.decimal_separator, ",");
    assert_eq!(f.group_separator, ".");
    assert!(f.rounding == Rounding::SignificantDigits(4));
    assert!(f.scaling == Scaling::Decimal(true));
    assert!(f.sign == Sign::OnlyMinus);
    assert!(f.trailing_zeros);
}
