use scaler::Formatter;
use scaler::Rounding;
use scaler::Scaling;
use scaler::Sign;
use scaler::number::Dec;
use scaler::number::Number;

fn num(neg: bool, mantissa: u64, exponent: i32) -> Number {
    Number::Finite(Dec::from_parts(neg, mantissa, exponent))
}

/// A finite number from its decimal digit string (most significant first).
fn num_digits(neg: bool, digits: &str, exponent: i32) -> Number {
    let mut v: Vec<u8> = Vec::new();
    for c in digits.chars().rev() {
        v.push(c.to_digit(10).unwrap() as u8);
    }
    while v.last() == Some(&0) {
        v.pop();
    }
    Number::Finite(Dec { negative: neg, digits: v, exponent: exponent as i64 })
}

#[test]
fn default_formatting() {
    let f = Formatter::new();
    assert_eq!(f.format(&num(false, 123456, -3)), "123,5");
    assert_eq!(f.format(&num(false, 789, -3)), "789,0 m");
    assert_eq!(f.format(&num(false, 42069, 0)), "42,07 k");
}

#[test]
fn three_significant_digits() {
    let f = Formatter::new().set_rounding(Rounding::SignificantDigits(3));
    assert_eq!(f.format(&num(false, 123456, -3)), "123");
    assert_eq!(f.format(&num(false, 789, -3)), "789 m");
    assert_eq!(f.format(&num(false, 42069, 0)), "42,1 k");
}

#[test]
fn magnitude_rounding_unscaled() {
    let f = Formatter::new().set_scaling(Scaling::NoScaling).set_rounding(Rounding::Magnitude(-2));
    assert_eq!(f.format(&num(false, 123456, -3)), "123,46");
    assert_eq!(f.format(&num(false, 789, -3)), "0,79");
    assert_eq!(f.format(&num(false, 42069, 0)), "42.069,00");

    let f = Formatter::new().set_scaling(Scaling::NoScaling).set_rounding(Rounding::Magnitude(-1));
    assert_eq!(f.format(&num(false, 123456, -3)), "123,5");
    assert_eq!(f.format(&num(false, 789, -3)), "0,8");
    assert_eq!(f.format(&num(false, 42069, 0)), "42.069,0");

    let f = Formatter::new().set_scaling(Scaling::NoScaling).set_rounding(Rounding::Magnitude(0));
    assert_eq!(f.format(&num(false, 123456, -3)), "123");
    assert_eq!(f.format(&num(false, 789, -3)), "1");
    assert_eq!(f.format(&num(false, 42069, 0)), "42.069");

    let f = Formatter::new().set_scaling(Scaling::NoScaling).set_rounding(Rounding::Magnitude(1));
    assert_eq!(f.format(&num(false, 123456, -3)), "120");
    assert_eq!(f.format(&num(false, 789, -3)), "0");
    assert_eq!(f.format(&num(false, 42069, 0)), "42.070");

    let f = Formatter::new().set_scaling(Scaling::NoScaling).set_rounding(Rounding::Magnitude(2));
    assert_eq!(f.format(&num(false, 123456, -3)), "100");
    assert_eq!(f.format(&num(false, 789, -3)), "0");
    assert_eq!(f.format(&num(false, 42069, 0)), "42.100");
}

#[test]
fn significant_digit_rounding_unscaled() {
    let f = Formatter::new().set_scaling(Scaling::NoScaling).set_rounding(
        Rounding::SignificantDigits(0),
    );
    assert_eq!(f.format(&num(false, 123456, -3)), "0");
    assert_eq!(f.format(&num(false, 789, -3)), "0");
    assert_eq!(f.format(&num(false, 42069, 0)), "0");

    let f = Formatter::new().set_scaling(Scaling::NoScaling).set_rounding(
        Rounding::SignificantDigits(1),
    );
    assert_eq!(f.format(&num(false, 123456, -3)), "100");
    assert_eq!(f.format(&num(false, 789, -3)), "0,8");
    assert_eq!(f.format(&num(false, 42069, 0)), "40.000");

    let f = Formatter::new().set_scaling(Scaling::NoScaling).set_rounding(
        Rounding::SignificantDigits(2),
    );
    assert_eq!(f.format(&num(false, 123456, -3)), "120");
    assert_eq!(f.format(&num(false, 789, -3)), "0,79");
    assert_eq!(f.format(&num(false, 42069, 0)), "42.000");

    let f = Formatter::new().set_scaling(Scaling::NoScaling).set_rounding(
        Rounding::SignificantDigits(3),
    );
    assert_eq!(f.format(&num(false, 123456, -3)), "123");
    assert_eq!(f.format(&num(false, 789, -3)), "0,789");
    assert_eq!(f.format(&num(false, 42069, 0)), "42.100");

    let f = Formatter::new().set_scaling(Scaling::NoScaling).set_rounding(
        Rounding::SignificantDigits(4),
    );
    assert_eq!(f.format(&num(false, 123456, -3)), "123,5");
    assert_eq!(f.format(&num(false, 789, -3)), "0,7890");
    assert_eq!(f.format(&num(false, 42069, 0)), "42.070");

    let f = Formatter::new().set_scaling(Scaling::NoScaling).set_rounding(
        Rounding::SignificantDigits(5),
    );
    assert_eq!(f.format(&num(false, 123456, -3)), "123,46");
    assert_eq!(f.format(&num(false, 789, -3)), "0,78900");
    assert_eq!(f.format(&num(false, 42069, 0)), "42.069");
}

#[test]
fn binary_scaling_ladder() {
    let f = Formatter::new().set_scaling(Scaling::Binary(true));
    assert_eq!(f.format(&num(false, 5, -1)), "1,000 * 2^(-1)");
    assert_eq!(f.format(&num(false, 1, 0)), "1,000");
    assert_eq!(f.format(&num(false, 64, 0)), "64,00");
    assert_eq!(f.format(&num(false, 128, 0)), "128,0");
    assert_eq!(f.format(&num(false, 1024, 0)), "1,000 Ki");
    assert_eq!(f.format(&num(false, 1048576, 0)), "1,000 Mi");
    assert_eq!(f.format(&num(false, 1073741824, 0)), "1,000 Gi");
    assert_eq!(f.format(&num(false, 1099511627776, 0)), "1,000 Ti");
    assert_eq!(f.format(&num(false, 1125899906842624, 0)), "1,000 Pi");
    assert_eq!(f.format(&num(false, 1152921504606846976, 0)), "1,000 Ei");
    assert_eq!(f.format(&num_digits(false, "1180591620717411303424", 0)), "1,000 Zi");
    assert_eq!(f.format(&num_digits(false, "1208925819614629174706176", 0)), "1,000 Yi");
    assert_eq!(f.format(&num_digits(false, "1237940039285380274899124224", 0)), "1,000 * 2^(90)");
}

#[test]
fn binary_boundary_precision() {
    // 1023 still has no prefix and is grouped; 1024 moves into the Ki bucket
    let f = Formatter::new().set_scaling(Scaling::Binary(true));
    assert_eq!(f.format(&num(false, 1023, 0)), "1.023");
    assert_eq!(f.format(&num(false, 1024, 0)), "1,000 Ki");
}

#[test]
fn binary_scaling_unspaced() {
    let f = Formatter::new().set_scaling(Scaling::Binary(false));
    assert_eq!(f.format(&num(false, 1024, 0)), "1,000Ki");
}

#[test]
fn binary_scaling_three_significant_digits() {
    let f = Formatter::new().set_scaling(Scaling::Binary(true)).set_rounding(
        Rounding::SignificantDigits(3),
    );
    assert_eq!(f.format(&num(false, 123456, -3)), "123");
    assert_eq!(f.format(&num(false, 789, -3)), "1,58 * 2^(-1)");
    assert_eq!(f.format(&num(false, 42069, 0)), "41,1 Ki");
}

#[test]
fn decimal_scaling_ladder() {
    let f = Formatter::new().set_scaling(Scaling::Decimal(true));
    assert_eq!(f.format(&num(false, 1, -31)), "1,000 * 10^(-31)");
    assert_eq!(f.format(&num(false, 1, -30)), "1,000 q");
    assert_eq!(f.format(&num(false, 1, -27)), "1,000 r");
    assert_eq!(f.format(&num(false, 1, -24)), "1,000 y");
    assert_eq!(f.format(&num(false, 1, -21)), "1,000 z");
    assert_eq!(f.format(&num(false, 1, -18)), "1,000 a");
    assert_eq!(f.format(&num(false, 1, -15)), "1,000 f");
    assert_eq!(f.format(&num(false, 1, -12)), "1,000 p");
    assert_eq!(f.format(&num(false, 1, -9)), "1,000 n");
    assert_eq!(f.format(&num(false, 1, -6)), "1,000 \u{b5}");
    assert_eq!(f.format(&num(false, 1, -3)), "1,000 m");
    assert_eq!(f.format(&num(false, 1, 0)), "1,000");
    assert_eq!(f.format(&num(false, 10, 0)), "10,00");
    assert_eq!(f.format(&num(false, 100, 0)), "100,0");
    assert_eq!(f.format(&num(false, 999, 0)), "999,0");
    assert_eq!(f.format(&num(false, 1000, 0)), "1,000 k");
    assert_eq!(f.format(&num(false, 1, 6)), "1,000 M");
    assert_eq!(f.format(&num(false, 1, 9)), "1,000 G");
    assert_eq!(f.format(&num(false, 1, 12)), "1,000 T");
    assert_eq!(f.format(&num(false, 1, 15)), "1,000 P");
    assert_eq!(f.format(&num(false, 1, 18)), "1,000 E");
    assert_eq!(f.format(&num(false, 1, 21)), "1,000 Z");
    assert_eq!(f.format(&num(false, 1, 24)), "1,000 Y");
    assert_eq!(f.format(&num(false, 1, 27)), "1,000 R");
    assert_eq!(f.format(&num(false, 1, 30)), "1,000 Q");
    assert_eq!(f.format(&num(false, 1, 33)), "1,000 * 10^(33)");
}

#[test]
fn decimal_scaling_unspaced() {
    let f = Formatter::new().set_scaling(Scaling::Decimal(false));
    assert_eq!(f.format(&num(false, 1000, 0)), "1,000k");
}

#[test]
fn no_scaling_ladder() {
    let f = Formatter::new().set_scaling(Scaling::NoScaling);
    assert_eq!(f.format(&num(false, 1, -10)), "0,0000000001000");
    assert_eq!(f.format(&num(false, 1, -1)), "0,1000");
    assert_eq!(f.format(&num(false, 1, 0)), "1,000");
    assert_eq!(f.format(&num(false, 10, 0)), "10,00");
    assert_eq!(f.format(&num(false, 100, 0)), "100,0");
    assert_eq!(f.format(&num(false, 1000, 0)), "1.000");
    assert_eq!(f.format(&num(false, 1, 10)), "10.000.000.000");
}

#[test]
fn scientific_scaling() {
    let f = Formatter::new().set_scaling(Scaling::Scientific);
    assert_eq!(f.format(&num(false, 1, -1)), "1,000 * 10^(-1)");
    assert_eq!(f.format(&num(false, 1, 0)), "1,000 * 10^(0)");
    assert_eq!(f.format(&num(false, 10, 0)), "1,000 * 10^(1)");
}

#[test]
fn scientific_scaling_of_zero() {
    let f = Formatter::new().set_scaling(Scaling::Scientific);
    assert_eq!(f.format(&num(false, 0, 0)), "0,000 * 10^(0)");
}

#[test]
fn rounding_crosses_prefix_boundary() {
    // 0.1 rounds to 4 significant digits before the magnitude is resolved:
    // the result is rendered in the milli bucket, not as "0,1000"
    let f = Formatter::new();
    assert_eq!(f.format(&num(false, 1, -1)), "100,0 m");
    // 999.97 rounds up to 1000 and must take the kilo prefix
    let f = Formatter::new().set_rounding(Rounding::SignificantDigits(4));
    assert_eq!(f.format(&num(false, 99997, -2)), "1,000 k");
}

#[test]
fn custom_separators() {
    let f = Formatter::new().set_scaling(Scaling::NoScaling).set_separators(".", ",");
    assert_eq!(f.format(&num(false, 1, 0)), "1,000");
    assert_eq!(f.format(&num(false, 10, 0)), "10,00");
    assert_eq!(f.format(&num(false, 100, 0)), "100,0");
    assert_eq!(f.format(&num(false, 1000, 0)), "1.000");
    assert_eq!(f.format(&num(false, 10000, 0)), "10.000");
}

#[test]
fn empty_group_separator_disables_grouping() {
    let f = Formatter::new().set_scaling(Scaling::NoScaling).set_separators("", ",");
    assert_eq!(f.format(&num(false, 1, 0)), "1,000");
    assert_eq!(f.format(&num(false, 1000, 0)), "1000");
    assert_eq!(f.format(&num(false, 10000, 0)), "10000");
}

#[test]
fn swapped_separators() {
    let f = Formatter::new().set_scaling(Scaling::NoScaling).set_separators(",", ".");
    assert_eq!(f.format(&num(false, 1, 0)), "1.000");
    assert_eq!(f.format(&num(false, 10, 0)), "10.00");
    assert_eq!(f.format(&num(false, 100, 0)), "100.0");
    assert_eq!(f.format(&num(false, 1000, 0)), "1,000");
    assert_eq!(f.format(&num(false, 10000, 0)), "10,000");
}

#[test]
fn separator_swap_round_trip() {
    // the two outputs are exact character swaps of each other
    let a = Formatter::new().set_scaling(Scaling::NoScaling).set_separators(".", ",");
    let b = Formatter::new().set_scaling(Scaling::NoScaling).set_separators(",", ".");
    for &(neg, mant, exp) in
        &[(false, 1234567u64, -2i32), (true, 42069, 0), (false, 5, -1), (false, 0, 0)] {
        let x = num(neg, mant, exp);
        let sa = a.format(&x);
        let sb = b.format(&x);
        let swapped: String = sa
            .chars()
            .map(|c| if c == '.' { ',' } else if c == ',' { '.' } else { c })
            .collect();
        assert_eq!(swapped, sb);
    }
}

#[test]
fn sign_always() {
    let f = Formatter::new().set_sign(Sign::Always);
    assert_eq!(f.format(&Number::NegativeInfinity), "-\u{221e}");
    assert_eq!(f.format(&num(true, 1, 0)), "-1,000");
    assert_eq!(f.format(&num(false, 0, 0)), "+0,000");
    assert_eq!(f.format(&num(false, 1, 0)), "+1,000");
    assert_eq!(f.format(&Number::PositiveInfinity), "+\u{221e}");
}

#[test]
fn sign_only_minus() {
    let f = Formatter::new().set_sign(Sign::OnlyMinus);
    assert_eq!(f.format(&Number::NegativeInfinity), "-\u{221e}");
    assert_eq!(f.format(&num(true, 1, 0)), "-1,000");
    assert_eq!(f.format(&num(false, 0, 0)), "0,000");
    assert_eq!(f.format(&num(false, 1, 0)), "1,000");
    assert_eq!(f.format(&Number::PositiveInfinity), "\u{221e}");
}

#[test]
fn special_values_default() {
    let f = Formatter::new();
    assert_eq!(f.format(&Number::NegativeInfinity), "-\u{221e}");
    assert_eq!(f.format(&Number::PositiveInfinity), "\u{221e}");
    assert_eq!(f.format(&Number::NaN), "NaN");
}

#[test]
fn nan_never_signed() {
    let f = Formatter::new().set_sign(Sign::Always);
    assert_eq!(f.format(&Number::NaN), "NaN");
}

#[test]
fn scientific_fallback_not_clamped() {
    // a magnitude beyond the last decimal bucket falls back to scientific
    // notation instead of being clamped into the "Q" bucket
    let f = Formatter::new();
    assert_eq!(f.format(&num(false, 1, 33)), "1,000 * 10^(33)");
    assert_eq!(f.format(&num(false, 2, 35)), "2,000 * 10^(35)");
}

#[test]
fn trailing_zeros_trimmed() {
    let f = Formatter::new().set_scaling(Scaling::NoScaling).set_trailing_zeros(false);
    assert_eq!(f.format(&num(false, 1, 0)), "1");
    assert_eq!(f.format(&num(false, 123456, -3)), "123,5");
    assert_eq!(f.format(&num(false, 789, -3)), "0,789");
    assert_eq!(f.format(&num(false, 105, -1)), "10,5");
}

#[test]
fn trailing_zeros_trimmed_with_prefix() {
    let f = Formatter::new().set_trailing_zeros(false);
    assert_eq!(f.format(&num(false, 1000, 0)), "1 k");
    assert_eq!(f.format(&num(false, 1, 0)), "1");
}

#[test]
fn negative_values() {
    let f = Formatter::new();
    assert_eq!(f.format(&num(true, 123456, -3)), "-123,5");
    assert_eq!(f.format(&num(true, 42069, 0)), "-42,07 k");
    let f = Formatter::new().set_scaling(Scaling::NoScaling).set_rounding(Rounding::Magnitude(0));
    assert_eq!(f.format(&num(true, 42069, 0)), "-42.069");
}

#[test]
fn negative_value_rounded_to_zero_keeps_its_sign() {
    // rounding a small negative value away leaves a negative zero, as the
    // sign of the rounded value decides the rendering
    let f = Formatter::new().set_scaling(Scaling::NoScaling).set_rounding(Rounding::Magnitude(0));
    assert_eq!(f.format(&num(true, 4, -2)), "-0");
}

#[test]
fn zero_input_rounds_to_positive_zero() {
    let f = Formatter::new().set_scaling(Scaling::NoScaling).set_sign(Sign::Always);
    assert_eq!(f.format(&num(true, 0, 0)), "+0,000");
}

#[test]
fn half_to_even_ties() {
    let f = Formatter::new().set_scaling(Scaling::NoScaling).set_rounding(Rounding::Magnitude(0));
    assert_eq!(f.format(&num(false, 5, -1)), "0");
    assert_eq!(f.format(&num(false, 15, -1)), "2");
    assert_eq!(f.format(&num(false, 25, -1)), "2");
    assert_eq!(f.format(&num(false, 35, -1)), "4");
}

#[test]
fn very_large_decimal_exponent() {
    let f = Formatter::new();
    assert_eq!(f.format(&num(false, 1, 10000)), "1,000 * 10^(10000)");
    assert_eq!(f.format(&num(true, 25, -10000)), "-2,500 * 10^(-9999)");
}

#[test]
fn multi_character_separators() {
    let f = Formatter::new()
        .set_scaling(Scaling::NoScaling)
        .set_rounding(Rounding::Magnitude(-1))
        .set_separators("--", "::");
    assert_eq!(f.format(&num(false, 12345675, -1)), "1--234--567::5");
}

#[test]
fn empty_decimal_separator() {
    let f = Formatter::new()
        .set_scaling(Scaling::NoScaling)
        .set_rounding(Rounding::Magnitude(-1))
        .set_separators(".", "");
    assert_eq!(f.format(&num(false, 1000, 0)), "1.0000");
}

#[test]
fn magnitude_rounding_with_scientific_scaling() {
    let f = Formatter::new().set_scaling(Scaling::Scientific).set_rounding(Rounding::Magnitude(0));
    assert_eq!(f.format(&num(false, 123456, -3)), "1,23 * 10^(2)");
}

#[test]
fn magnitude_rounding_with_binary_scaling() {
    let f = Formatter::new().set_scaling(Scaling::Binary(true)).set_rounding(
        Rounding::Magnitude(0),
    );
    assert_eq!(f.format(&num(false, 42069, 0)), "41,08 Ki");
}

#[test]
fn magnitude_rounding_with_binary_fallback() {
    // the fallback renders with floor(magnitude) fractional digits
    let f = Formatter::new().set_scaling(Scaling::Binary(true)).set_rounding(
        Rounding::Magnitude(0),
    );
    let expected = format!("1,{} * 2^(90)", "0".repeat(90));
    assert_eq!(f.format(&num_digits(false, "1237940039285380274899124224", 0)), expected);
}

#[test]
fn magnitude_rounding_with_decimal_scaling() {
    let f = Formatter::new().set_scaling(Scaling::Decimal(true)).set_rounding(
        Rounding::Magnitude(0),
    );
    assert_eq!(f.format(&num(false, 42069, 0)), "42,069 k");
}

#[test]
fn magnitude_rounding_with_decimal_fallback() {
    let f = Formatter::new().set_scaling(Scaling::Decimal(true)).set_rounding(
        Rounding::Magnitude(0),
    );
    let expected = format!("1,{} * 10^(35)", "0".repeat(35));
    assert_eq!(f.format(&num(false, 1, 35)), expected);
}

#[test]
fn negative_binary_value() {
    let f = Formatter::new().set_scaling(Scaling::Binary(true));
    assert_eq!(f.format(&num(true, 1024, 0)), "-1,000 Ki");
}

#[test]
fn rounding_crosses_binary_prefix_boundary() {
    // 1023.9 rounds to 1024 before the binary magnitude is resolved
    let f = Formatter::new().set_scaling(Scaling::Binary(true));
    assert_eq!(f.format(&num(false, 10239, -1)), "1,000 Ki");
}

#[test]
fn negative_zero_input_formats_as_positive_zero() {
    let f = Formatter::new().set_sign(Sign::Always);
    assert_eq!(f.format(&num(true, 0, 0)), "+0,000");
}
