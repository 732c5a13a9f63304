//! Laws of the formatter, stated and proved over the same specification
//! functions that the executable functions' contracts use.

use vstd::prelude::*;

use crate::Formatter;
use crate::digits::val;
use crate::format::spec_finish;
use crate::format::spec_format;
use crate::format::spec_format_finite;
use crate::format::spec_rounded_exp;
use crate::format::spec_rounded_mant;
use crate::format::spec_rounded_neg;
use crate::format::spec_sci_suffix;
use crate::format::spec_space_if;
use crate::number::Dec;
use crate::number::Number;
use crate::number::spec_round_exp;
use crate::number::spec_round_mant;
use crate::options::Scaling;
use crate::options::Sign;
use crate::render::dchar;
use crate::render::digits_of;
use crate::render::fixed_digits;
use crate::render::spec_render_fixed;
use crate::round::Round;
use crate::round::is_canonical_zero;
use crate::scale::spec_binary_bucket;
use crate::scale::spec_binary_symbol;
use crate::scale::spec_decimal_bucket;
use crate::scale::spec_decimal_symbol;
use crate::text::first_char;
use crate::text::first_digit;
use crate::text::lemma_first_char_at;
use crate::text::spec_anchor;
use crate::text::spec_group;
use crate::text::spec_separate;
use crate::text::spec_signed_chars;
use crate::text::spec_trim_frac;
use crate::text::subst_point;
use crate::text::trim_zeros;

verus! {

/// Rounding to a magnitude is idempotent: rounding a value that is already
/// rounded at magnitude `g` again at `g` returns the same value (a zero
/// result is canonical, with exponent zero).
pub proof fn lemma_round_mag_idempotent(m: nat, e: int, g: int)
    ensures
        spec_round_mant(spec_round_mant(m, e, g), spec_round_exp(m, e, g), g) == spec_round_mant(
            m,
            e,
            g,
        ),
        spec_round_mant(m, e, g) != 0 ==> spec_round_exp(
            spec_round_mant(m, e, g),
            spec_round_exp(m, e, g),
            g,
        ) == spec_round_exp(m, e, g),
        spec_round_mant(m, e, g) == 0 ==> spec_round_exp(
            spec_round_mant(m, e, g),
            spec_round_exp(m, e, g),
            g,
        ) == 0,
{
    let m1 = spec_round_mant(m, e, g);
    let e1 = spec_round_exp(m, e, g);
    if m1 != 0 {
        if m == 0 {
        } else if g <= e {
            assert(m1 == m && e1 == e);
        } else {
            assert(e1 == g);
            assert(spec_round_mant(m1, e1, g) == m1);
        }
    }
}

/// The same law about the executable rounding: rounding the result of
/// `round_mag` once more at the same magnitude does not change the value.
pub proof fn lemma_round_mag_idempotent_dec(x: Dec, once: Dec, twice: Dec, magnitude: i16)
    requires
        x.is_round_mag(magnitude, once),
        once.is_round_mag(magnitude, twice),
    ensures
        val(twice.digits@) == val(once.digits@),
        val(once.digits@) != 0 ==> twice.exponent == once.exponent && twice.negative
            == once.negative,
{
    lemma_round_mag_idempotent(val(x.digits@), x.exponent as int, magnitude as int);
}

/// Rounding to zero significant digits always yields the canonical zero,
/// whatever the finite input.
pub proof fn lemma_round_sig_zero_digits(x: Dec, r: Dec)
    requires
        x.is_round_sig(0, r),
    ensures
        is_canonical_zero(r),
        val(r.digits@) == 0,
{
}

/// Rounding zero to any magnitude yields the canonical zero.
pub proof fn lemma_round_mag_of_zero(x: Dec, r: Dec, magnitude: i16)
    requires
        val(x.digits@) == 0,
        x.is_round_mag(magnitude, r),
    ensures
        val(r.digits@) == 0,
        r.exponent == 0,
        r.negative == false,
{
}

/// The special values render the same under every configuration, except that
/// positive infinity takes a '+' exactly under `Sign::Always`: negative
/// infinity never gains a '+', and NaN is never signed.
pub proof fn lemma_special_values(f: Formatter)
    ensures
        spec_format(f, Number::NegativeInfinity) == seq!['-', '\u{221e}'],
        spec_format(f, Number::NaN) == seq!['N', 'a', 'N'],
        f.sign == Sign::Always ==> spec_format(f, Number::PositiveInfinity) == seq![
            '+',
            '\u{221e}',
        ],
        f.sign != Sign::Always ==> spec_format(f, Number::PositiveInfinity) == seq!['\u{221e}'],
{
}

/// The group and decimal glyphs exchanged.
pub open spec fn swap_char(c: char) -> char {
    if c == '.' {
        ','
    } else if c == ',' {
        '.'
    } else {
        c
    }
}

/// Every character of `s` exchanged by [`swap_char`].
pub open spec fn swap_seq(s: Seq<char>) -> Seq<char> {
    s.map_values(|c: char| swap_char(c))
}

/// Whether no character of `s` is a comma.
pub open spec fn no_comma(s: Seq<char>) -> bool {
    forall|i: int| 0 <= i < s.len() ==> s[i] != ','
}

proof fn lemma_swap_concat(a: Seq<char>, b: Seq<char>)
    ensures
        swap_seq(a + b) == swap_seq(a) + swap_seq(b),
{
    assert(swap_seq(a + b) =~= swap_seq(a) + swap_seq(b));
}

proof fn lemma_no_comma_concat(a: Seq<char>, b: Seq<char>)
    requires
        no_comma(a),
        no_comma(b),
    ensures
        no_comma(a + b),
{
    assert forall|i: int| 0 <= i < (a + b).len() implies (a + b)[i] != ',' by {
        if i < a.len() {
            assert((a + b)[i] == a[i]);
        } else {
            assert((a + b)[i] == b[i - a.len()]);
        }
    }
}

proof fn lemma_digits_of_no_comma(n: nat)
    ensures
        no_comma(digits_of(n)),
    decreases n,
{
    assert(dchar(n % 10) != ',');
    if n < 10 {
        assert(dchar(n) != ',');
    } else {
        lemma_digits_of_no_comma(n / 10);
        assert forall|i: int| 0 <= i < digits_of(n).len() implies digits_of(n)[i] != ',' by {
            if i < digits_of(n / 10).len() {
                assert(digits_of(n)[i] == digits_of(n / 10)[i]);
            }
        }
    }
}

proof fn lemma_fixed_digits_no_comma(n: nat, len: nat)
    ensures
        no_comma(fixed_digits(n, len)),
    decreases len,
{
    if len > 0 {
        lemma_fixed_digits_no_comma(n / 10, (len - 1) as nat);
        assert(dchar(n % 10) != ',');
        assert forall|i: int| 0 <= i < fixed_digits(n, len).len() implies fixed_digits(n, len)[i]
            != ',' by {
            if i < fixed_digits(n / 10, (len - 1) as nat).len() {
                assert(fixed_digits(n, len)[i] == fixed_digits(n / 10, (len - 1) as nat)[i]);
            }
        }
    }
}

proof fn lemma_render_no_comma(neg: bool, m: nat, e: int, places: nat)
    ensures
        no_comma(spec_render_fixed(neg, m, e, places)),
{
    let n = crate::render::spec_fixed_mant(m, e, places);
    let sign: Seq<char> = if neg {
        seq!['-']
    } else {
        Seq::empty()
    };
    assert(no_comma(sign));
    lemma_digits_of_no_comma(n / crate::digits::pow10(places));
    if places == 0 {
        lemma_no_comma_concat(sign, digits_of(n / crate::digits::pow10(0)));
    } else {
        lemma_fixed_digits_no_comma(n % crate::digits::pow10(places), places);
        assert(no_comma(seq!['.']));
        lemma_no_comma_concat(sign, digits_of(n / crate::digits::pow10(places)));
        lemma_no_comma_concat(sign + digits_of(n / crate::digits::pow10(places)), seq!['.']);
        lemma_no_comma_concat(
            sign + digits_of(n / crate::digits::pow10(places)) + seq!['.'],
            fixed_digits(n % crate::digits::pow10(places), places),
        );
    }
}

proof fn lemma_trim_zeros_no_comma(s: Seq<char>)
    requires
        no_comma(s),
    ensures
        no_comma(trim_zeros(s)),
    decreases s.len(),
{
    if s.len() > 0 && s[s.len() - 1] == '0' {
        assert forall|i: int| 0 <= i < s.drop_last().len() implies s.drop_last()[i] != ',' by {
            assert(s.drop_last()[i] == s[i]);
        }
        lemma_trim_zeros_no_comma(s.drop_last());
    }
}

proof fn lemma_trim_frac_no_comma(s: Seq<char>)
    requires
        no_comma(s),
    ensures
        no_comma(spec_trim_frac(s)),
{
    lemma_trim_zeros_no_comma(s);
    let t = trim_zeros(s);
    if t.len() > 0 && t[t.len() - 1] == '.' {
        assert forall|i: int| 0 <= i < t.drop_last().len() implies t.drop_last()[i] != ',' by {
            assert(t.drop_last()[i] == t[i]);
        }
    }
}

proof fn lemma_signed_chars_no_comma(k: int)
    ensures
        no_comma(spec_signed_chars(k)),
{
    if k < 0 {
        lemma_digits_of_no_comma((-k) as nat);
        lemma_no_comma_concat(seq!['-'], digits_of((-k) as nat));
    } else {
        lemma_digits_of_no_comma(k as nat);
    }
}

proof fn lemma_sci_suffix_no_comma(base10: bool, k: int)
    ensures
        no_comma(spec_sci_suffix(base10, k)),
{
    lemma_signed_chars_no_comma(k);
    if base10 {
        let h = seq![' ', '*', ' ', '1', '0', '^', '('];
        assert(no_comma(h));
        lemma_no_comma_concat(h, spec_signed_chars(k));
        lemma_no_comma_concat(h + spec_signed_chars(k), seq![')']);
    } else {
        let h = seq![' ', '*', ' ', '2', '^', '('];
        assert(no_comma(h));
        lemma_no_comma_concat(h, spec_signed_chars(k));
        lemma_no_comma_concat(h + spec_signed_chars(k), seq![')']);
    }
}

proof fn lemma_symbols_no_comma(i: int)
    ensures
        no_comma(spec_binary_symbol(i)),
        no_comma(spec_decimal_symbol(i)),
{
}

/// With a point as the decimal separator the substitution yields exactly the
/// glyph-swap of the substitution with a comma, on comma-free input.
proof fn lemma_subst_swap(s: Seq<char>)
    requires
        no_comma(s),
    ensures
        subst_point(s, seq!['.']) == swap_seq(subst_point(s, seq![','])),
    decreases s.len(),
{
    if s.len() == 0 {
        assert(subst_point(s, seq!['.']) =~= swap_seq(subst_point(s, seq![','])));
    } else {
        assert forall|i: int| 0 <= i < s.skip(1).len() implies s.skip(1)[i] != ',' by {
            assert(s.skip(1)[i] == s[i + 1]);
        }
        lemma_subst_swap(s.skip(1));
        let h1: Seq<char> = if s[0] == '.' {
            seq![',']
        } else {
            seq![s[0]]
        };
        let h2: Seq<char> = if s[0] == '.' {
            seq!['.']
        } else {
            seq![s[0]]
        };
        lemma_swap_concat(h1, subst_point(s.skip(1), seq![',']));
        assert(swap_seq(h1) =~= h2);
    }
}

/// Group insertion with the two separator pairs swapped produces the
/// glyph-swap, on comma-free input.
proof fn lemma_group_swap(s: Seq<char>, ear: int, i: int)
    requires
        no_comma(s),
    ensures
        spec_group(s, ear, i, seq![','], seq!['.']) == swap_seq(
            spec_group(s, ear, i, seq!['.'], seq![',']),
        ),
    decreases i,
{
    if 0 <= ear && ear + 3 <= i && i <= s.len() {
        assert forall|j: int| 0 <= j < s.take(i - 3).len() implies #[trigger] s.take(i - 3)[j]
            != ',' by {
            assert(s.take(i - 3)[j] == s[j]);
        }
        assert forall|j: int| 0 <= j < s.skip(i - 3).len() implies #[trigger] s.skip(i - 3)[j]
            != ',' by {
            assert(s.skip(i - 3)[j] == s[j + i - 3]);
        }
        lemma_group_swap(s.take(i - 3), ear, i - 3);
        lemma_subst_swap(s.skip(i - 3));
        let a1 = spec_group(s.take(i - 3), ear, i - 3, seq!['.'], seq![',']);
        let b1 = subst_point(s.skip(i - 3), seq![',']);
        lemma_swap_concat(a1, seq!['.']);
        lemma_swap_concat(a1 + seq!['.'], b1);
        assert(swap_seq(seq!['.']) =~= seq![',']);
    } else {
        lemma_subst_swap(s);
    }
}

/// The separator stage with the pairs swapped produces the glyph-swap, on
/// comma-free input.
proof fn lemma_separate_swap(s: Seq<char>)
    requires
        no_comma(s),
    ensures
        spec_separate(s, seq![','], seq!['.']) == swap_seq(
            spec_separate(s, seq!['.'], seq![',']),
        ),
{
    lemma_group_swap(s, first_digit(s) + 1, spec_anchor(s));
}

/// Separator swap round-trip: formatting the same value with the separators
/// `(".", ",")` and with `(",", ".")` yields strings that are exact
/// character-swaps of each other (group and decimal glyphs exchanged).
pub proof fn lemma_separator_swap(f1: Formatter, f2: Formatter, x: Number)
    requires
        f1.group_separator@ == seq!['.'],
        f1.decimal_separator@ == seq![','],
        f2.group_separator@ == seq![','],
        f2.decimal_separator@ == seq!['.'],
        f2.rounding == f1.rounding,
        f2.scaling == f1.scaling,
        f2.sign == f1.sign,
        f2.trailing_zeros == f1.trailing_zeros,
    ensures
        spec_format(f2, x) == swap_seq(spec_format(f1, x)),
{
    match x {
        Number::NaN => {
            assert(spec_format(f2, x) =~= swap_seq(spec_format(f1, x)));
        },
        Number::PositiveInfinity => {
            assert(spec_format(f2, x) =~= swap_seq(spec_format(f1, x)));
        },
        Number::NegativeInfinity => {
            assert(spec_format(f2, x) =~= swap_seq(spec_format(f1, x)));
        },
        Number::Finite(d) => {
            reveal(spec_format_finite);
            let neg = d.negative;
            let m = val(d.digits@);
            let e = d.exponent as int;
            let rm = spec_rounded_mant(f1.rounding, m, e);
            let re = spec_rounded_exp(f1.rounding, m, e);
            let rneg = spec_rounded_neg(f1.rounding, neg, m);
            let m2 = if rm == 0 {
                0int
            } else {
                crate::number::spec_mag2(rm, re)
            };
            let m10 = if rm == 0 {
                0int
            } else {
                crate::number::nlen(rm) - 1 + re
            };
            let scaled = crate::format::spec_scaled(f1.scaling, rm, re, m2, m10);
            let sm = scaled.0;
            let se = scaled.1;
            let sm10 = if sm == 0 {
                0int
            } else {
                crate::number::nlen(sm) - 1 + se
            };
            let d0 = crate::scale::spec_dec_places(
                f1.scaling,
                f1.rounding,
                crate::format::spec_found(f1.scaling, m2, m10),
                m2,
                m10,
                sm10,
            );
            let places = if d0 < 0 {
                0int
            } else {
                d0
            };
            let body0 = spec_render_fixed(rneg, sm, se, places as nat);
            let body = if f1.trailing_zeros || places == 0 {
                body0
            } else {
                spec_trim_frac(body0)
            };
            lemma_render_no_comma(rneg, sm, se, places as nat);
            lemma_trim_frac_no_comma(body0);
            assert(no_comma(body));
            let suffixed = match f1.scaling {
                Scaling::NoScaling => body,
                Scaling::Binary(sp) => match spec_binary_bucket(m2) {
                    Some(i) => body + spec_space_if(sp, spec_binary_symbol(i))
                        + spec_binary_symbol(i),
                    None => body + spec_sci_suffix(false, m2),
                },
                Scaling::Decimal(sp) => match spec_decimal_bucket(m10) {
                    Some(i) => body + spec_space_if(sp, spec_decimal_symbol(i))
                        + spec_decimal_symbol(i),
                    None => body + spec_sci_suffix(true, m10),
                },
                Scaling::Scientific => body + spec_sci_suffix(true, m10),
            };
            assert(no_comma(suffixed)) by {
                match f1.scaling {
                    Scaling::NoScaling => {},
                    Scaling::Binary(sp) => match spec_binary_bucket(m2) {
                        Some(i) => {
                            lemma_symbols_no_comma(i);
                            assert(no_comma(spec_space_if(sp, spec_binary_symbol(i))));
                            lemma_no_comma_concat(body, spec_space_if(sp, spec_binary_symbol(i)));
                            lemma_no_comma_concat(
                                body + spec_space_if(sp, spec_binary_symbol(i)),
                                spec_binary_symbol(i),
                            );
                        },
                        None => {
                            lemma_sci_suffix_no_comma(false, m2);
                            lemma_no_comma_concat(body, spec_sci_suffix(false, m2));
                        },
                    },
                    Scaling::Decimal(sp) => match spec_decimal_bucket(m10) {
                        Some(i) => {
                            lemma_symbols_no_comma(i);
                            assert(no_comma(spec_space_if(sp, spec_decimal_symbol(i))));
                            lemma_no_comma_concat(body, spec_space_if(sp, spec_decimal_symbol(i)));
                            lemma_no_comma_concat(
                                body + spec_space_if(sp, spec_decimal_symbol(i)),
                                spec_decimal_symbol(i),
                            );
                        },
                        None => {
                            lemma_sci_suffix_no_comma(true, m10);
                            lemma_no_comma_concat(body, spec_sci_suffix(true, m10));
                        },
                    },
                    Scaling::Scientific => {
                        lemma_sci_suffix_no_comma(true, m10);
                        lemma_no_comma_concat(body, spec_sci_suffix(true, m10));
                    },
                }
            }
            let signed = if f1.sign == Sign::Always && !rneg {
                seq!['+'] + suffixed
            } else {
                suffixed
            };
            assert(no_comma(signed)) by {
                if f1.sign == Sign::Always && !rneg {
                    lemma_no_comma_concat(seq!['+'], suffixed);
                }
            }
            assert(spec_format_finite(f1, neg, m, e) == spec_separate(
                signed,
                seq!['.'],
                seq![','],
            )) by {
                assert(spec_finish(f1, body, m2, m10, rneg) == spec_separate(
                    signed,
                    f1.group_separator@,
                    f1.decimal_separator@,
                ));
            }
            assert(spec_format_finite(f2, neg, m, e) == spec_separate(
                signed,
                seq![','],
                seq!['.'],
            )) by {
                assert(spec_finish(f2, body, m2, m10, rneg) == spec_separate(
                    signed,
                    f2.group_separator@,
                    f2.decimal_separator@,
                ));
            }
            lemma_separate_swap(signed);
        },
    }
}

/// Whether no character of `s` is `c`.
pub open spec fn avoids(s: Seq<char>, c: char) -> bool {
    forall|i: int| 0 <= i < s.len() ==> s[i] != c
}

/// Whether `t` is the tail of `s`.
pub open spec fn ends_with(s: Seq<char>, t: Seq<char>) -> bool {
    t.len() <= s.len() && s.skip(s.len() - t.len()) == t
}

proof fn lemma_ends_with_concat(x: Seq<char>, t: Seq<char>)
    ensures
        ends_with(x + t, t),
{
    assert((x + t).skip((x + t).len() - t.len()) =~= t);
}

proof fn lemma_dchar_is_digit(d: nat)
    ensures
        crate::spec_is_digit(dchar(d)),
{
}

proof fn lemma_digits_of_avoids(n: nat, c: char)
    requires
        !crate::spec_is_digit(c),
    ensures
        avoids(digits_of(n), c),
    decreases n,
{
    lemma_dchar_is_digit(n % 10);
    if n < 10 {
        lemma_dchar_is_digit(n);
    } else {
        lemma_digits_of_avoids(n / 10, c);
        assert forall|i: int| 0 <= i < digits_of(n).len() implies digits_of(n)[i] != c by {
            if i < digits_of(n / 10).len() {
                assert(digits_of(n)[i] == digits_of(n / 10)[i]);
            }
        }
    }
}

proof fn lemma_fixed_digits_avoids(n: nat, len: nat, c: char)
    requires
        !crate::spec_is_digit(c),
    ensures
        avoids(fixed_digits(n, len), c),
    decreases len,
{
    if len > 0 {
        lemma_fixed_digits_avoids(n / 10, (len - 1) as nat, c);
        lemma_dchar_is_digit(n % 10);
        assert forall|i: int| 0 <= i < fixed_digits(n, len).len() implies fixed_digits(n, len)[i]
            != c by {
            if i < fixed_digits(n / 10, (len - 1) as nat).len() {
                assert(fixed_digits(n, len)[i] == fixed_digits(n / 10, (len - 1) as nat)[i]);
            }
        }
    }
}

proof fn lemma_avoids_concat(a: Seq<char>, b: Seq<char>, c: char)
    requires
        avoids(a, c),
        avoids(b, c),
    ensures
        avoids(a + b, c),
{
    assert forall|i: int| 0 <= i < (a + b).len() implies (a + b)[i] != c by {
        if i < a.len() {
            assert((a + b)[i] == a[i]);
        } else {
            assert((a + b)[i] == b[i - a.len()]);
        }
    }
}

proof fn lemma_render_avoids(neg: bool, m: nat, e: int, places: nat, c: char)
    requires
        !crate::spec_is_digit(c),
        c != '-',
        c != '.',
    ensures
        avoids(spec_render_fixed(neg, m, e, places), c),
{
    let n = crate::render::spec_fixed_mant(m, e, places);
    let sign: Seq<char> = if neg {
        seq!['-']
    } else {
        Seq::empty()
    };
    lemma_digits_of_avoids(n / crate::digits::pow10(places), c);
    if places == 0 {
        lemma_avoids_concat(sign, digits_of(n / crate::digits::pow10(0)), c);
    } else {
        lemma_fixed_digits_avoids(n % crate::digits::pow10(places), places, c);
        lemma_avoids_concat(sign, digits_of(n / crate::digits::pow10(places)), c);
        lemma_avoids_concat(sign + digits_of(n / crate::digits::pow10(places)), seq!['.'], c);
        lemma_avoids_concat(
            sign + digits_of(n / crate::digits::pow10(places)) + seq!['.'],
            fixed_digits(n % crate::digits::pow10(places), places),
            c,
        );
    }
}

proof fn lemma_trim_frac_avoids(s: Seq<char>, c: char)
    requires
        avoids(s, c),
    ensures
        avoids(spec_trim_frac(s), c),
{
    lemma_trim_zeros_avoids(s, c);
    let t = trim_zeros(s);
    if t.len() > 0 && t[t.len() - 1] == '.' {
        assert forall|i: int| 0 <= i < t.drop_last().len() implies t.drop_last()[i] != c by {
            assert(t.drop_last()[i] == t[i]);
        }
    }
}

proof fn lemma_trim_zeros_avoids(s: Seq<char>, c: char)
    requires
        avoids(s, c),
    ensures
        avoids(trim_zeros(s), c),
    decreases s.len(),
{
    if s.len() > 0 && s[s.len() - 1] == '0' {
        assert forall|i: int| 0 <= i < s.drop_last().len() implies s.drop_last()[i] != c by {
            assert(s.drop_last()[i] == s[i]);
        }
        lemma_trim_zeros_avoids(s.drop_last(), c);
    }
}

proof fn lemma_signed_chars_avoids_point(k: int)
    ensures
        avoids(spec_signed_chars(k), '.'),
{
    if k < 0 {
        lemma_digits_of_avoids((-k) as nat, '.');
        lemma_avoids_concat(seq!['-'], digits_of((-k) as nat), '.');
    } else {
        lemma_digits_of_avoids(k as nat, '.');
    }
}

proof fn lemma_sci_suffix_avoids_point(base10: bool, k: int)
    ensures
        avoids(spec_sci_suffix(base10, k), '.'),
{
    lemma_signed_chars_avoids_point(k);
    if base10 {
        let h = seq![' ', '*', ' ', '1', '0', '^', '('];
        lemma_avoids_concat(h, spec_signed_chars(k), '.');
        lemma_avoids_concat(h + spec_signed_chars(k), seq![')'], '.');
    } else {
        let h = seq![' ', '*', ' ', '2', '^', '('];
        lemma_avoids_concat(h, spec_signed_chars(k), '.');
        lemma_avoids_concat(h + spec_signed_chars(k), seq![')'], '.');
    }
}

/// Substitution distributes over concatenation.
proof fn lemma_subst_concat(a: Seq<char>, b: Seq<char>, dec: Seq<char>)
    ensures
        subst_point(a + b, dec) == subst_point(a, dec) + subst_point(b, dec),
    decreases a.len(),
{
    if a.len() == 0 {
        assert(a + b =~= b);
        assert(subst_point(a, dec) =~= Seq::<char>::empty());
        assert(subst_point(a + b, dec) =~= subst_point(a, dec) + subst_point(b, dec));
    } else {
        assert((a + b)[0] == a[0]);
        assert((a + b).skip(1) =~= a.skip(1) + b);
        lemma_subst_concat(a.skip(1), b, dec);
        assert(subst_point(a + b, dec) =~= subst_point(a, dec) + subst_point(b, dec));
    }
}

/// Substitution leaves a point-free string unchanged.
proof fn lemma_subst_pointfree(s: Seq<char>, dec: Seq<char>)
    requires
        avoids(s, '.'),
    ensures
        subst_point(s, dec) == s,
    decreases s.len(),
{
    if s.len() > 0 {
        assert forall|i: int| 0 <= i < s.skip(1).len() implies s.skip(1)[i] != '.' by {
            assert(s.skip(1)[i] == s[i + 1]);
        }
        lemma_subst_pointfree(s.skip(1), dec);
        assert(subst_point(s, dec) =~= s);
    }
}

/// The first occurrence really is one: what `first_char` points at is `c`,
/// and nothing before it is.
proof fn lemma_first_char_props(s: Seq<char>, c: char)
    ensures
        0 <= first_char(s, c) <= s.len(),
        first_char(s, c) < s.len() ==> s[first_char(s, c)] == c,
        forall|j: int| 0 <= j < first_char(s, c) ==> s[j] != c,
    decreases s.len(),
{
    if s.len() > 0 && s[0] != c {
        lemma_first_char_props(s.skip(1), c);
        assert forall|j: int| 0 <= j < first_char(s, c) implies s[j] != c by {
            if j >= 1 {
                assert(s[j] == s.skip(1)[j - 1]);
            }
        }
        if first_char(s, c) < s.len() {
            assert(s[first_char(s, c)] == s.skip(1)[first_char(s.skip(1), c)]);
        }
    }
}

/// The separator stage keeps a suffix that starts with " *" and holds no
/// point: group markers land left of the anchor and the substitution does
/// not touch it.
proof fn lemma_separate_ends_with(p: Seq<char>, suf: Seq<char>, g: Seq<char>, d: Seq<char>)
    requires
        avoids(p, '*'),
        avoids(suf, '.'),
        suf.len() >= 2,
        suf[0] == ' ',
        suf[1] == '*',
    ensures
        ends_with(spec_separate(p + suf, g, d), suf),
{
    let s = p + suf;
    // the anchor sits in the body, or at the '*' just after it
    let a = spec_anchor(s);
    assert(a <= p.len() + 1) by {
        lemma_first_char_props(s, '.');
        lemma_first_char_props(s, '*');
        if first_char(s, '.') < s.len() {
            let fp = first_char(s, '.');
            assert(s[fp] == '.');
            if fp >= p.len() {
                assert(s[fp] == suf[fp - p.len()]);
                assert(false);
            }
        } else {
            assert(s[p.len() as int + 1] == suf[1]);
            lemma_first_char_at(s, '*', p.len() as int + 1);
        }
    }
    if g.len() == 0 {
        lemma_subst_concat(p, suf, d);
        lemma_subst_pointfree(suf, d);
        lemma_ends_with_concat(subst_point(p, d), suf);
    } else {
        let ear = first_digit(s) + 1;
        if 0 <= ear && ear + 3 <= a && a <= s.len() {
            let left = s.take(a - 3);
            let right = s.skip(a - 3);
            assert(right =~= p.skip(a - 3) + suf);
            lemma_subst_concat(p.skip(a - 3), suf, d);
            lemma_subst_pointfree(suf, d);
            let x = spec_group(left, ear, a - 3, g, d) + g + subst_point(p.skip(a - 3), d);
            assert(spec_group(s, ear, a, g, d) =~= x + suf);
            lemma_ends_with_concat(x, suf);
            assert(ends_with(x + suf, suf));
        } else {
            lemma_subst_concat(p, suf, d);
            lemma_subst_pointfree(suf, d);
            lemma_ends_with_concat(subst_point(p, d), suf);
        }
    }
}

/// The decimal magnitude of the configured rounding of `m * 10^e`.
pub open spec fn rounded_mag10(rounding: crate::options::Rounding, m: nat, e: int) -> int {
    let rm = spec_rounded_mant(rounding, m, e);
    let re = spec_rounded_exp(rounding, m, e);
    if rm == 0 {
        0
    } else {
        crate::number::nlen(rm) - 1 + re
    }
}

/// Scientific fallback: under decimal scaling, a rounded magnitude outside
/// every table bucket renders with the ` * 10^(<magnitude>)` suffix, with
/// the exact magnitude - never silently clamped into the last bucket.
pub proof fn lemma_scientific_fallback(f: Formatter, neg: bool, m: nat, e: int)
    requires
        f.scaling matches Scaling::Decimal(_),
        spec_decimal_bucket(rounded_mag10(f.rounding, m, e)) is None,
    ensures
        ends_with(
            spec_format_finite(f, neg, m, e),
            spec_sci_suffix(true, rounded_mag10(f.rounding, m, e)),
        ),
{
    reveal(spec_format_finite);
    let rm = spec_rounded_mant(f.rounding, m, e);
    let re = spec_rounded_exp(f.rounding, m, e);
    let rneg = spec_rounded_neg(f.rounding, neg, m);
    let m2 = if rm == 0 {
        0int
    } else {
        crate::number::spec_mag2(rm, re)
    };
    let m10 = rounded_mag10(f.rounding, m, e);
    let scaled = crate::format::spec_scaled(f.scaling, rm, re, m2, m10);
    let sm = scaled.0;
    let se = scaled.1;
    let sm10 = if sm == 0 {
        0int
    } else {
        crate::number::nlen(sm) - 1 + se
    };
    let d0 = crate::scale::spec_dec_places(
        f.scaling,
        f.rounding,
        crate::format::spec_found(f.scaling, m2, m10),
        m2,
        m10,
        sm10,
    );
    let places = if d0 < 0 {
        0int
    } else {
        d0
    };
    let body0 = spec_render_fixed(rneg, sm, se, places as nat);
    let body = if f.trailing_zeros || places == 0 {
        body0
    } else {
        spec_trim_frac(body0)
    };
    lemma_render_avoids(rneg, sm, se, places as nat, '*');
    lemma_trim_frac_avoids(body0, '*');
    assert(avoids(body, '*'));
    let suf = spec_sci_suffix(true, m10);
    lemma_sci_suffix_avoids_point(true, m10);
    assert(suf[0] == ' ' && suf[1] == '*');
    let suffixed = body + suf;
    let signed = if f.sign == Sign::Always && !rneg {
        seq!['+'] + suffixed
    } else {
        suffixed
    };
    if f.sign == Sign::Always && !rneg {
        lemma_avoids_concat(seq!['+'], body, '*');
        assert(signed =~= (seq!['+'] + body) + suf);
        lemma_separate_ends_with(seq!['+'] + body, suf, f.group_separator@, f.decimal_separator@);
    } else {
        lemma_separate_ends_with(body, suf, f.group_separator@, f.decimal_separator@);
    }
}

} // verus!
