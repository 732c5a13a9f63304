//! The formatting pipeline: round, resolve the magnitude and its prefix
//! bucket, derive the fractional digit count, render, and apply the sign and
//! the separators.

use vstd::prelude::*;

use crate::Formatter;
use crate::digits::digits_norm;
use crate::digits::lemma_npow_pos;
use crate::digits::mul_pow;
use crate::digits::npow;
use crate::digits::val;
use crate::number::Dec;
use crate::number::Number;
use crate::number::lemma_nlen_norm;
use crate::number::lemma_spec_mag2_is;
use crate::number::mag2_floor;
use crate::number::nlen;
use crate::number::spec_mag2;
use crate::number::spec_round_exp;
use crate::number::spec_round_mant;
use crate::options::Rounding;
use crate::options::Scaling;
use crate::options::Sign;
use crate::render::render_fixed;
use crate::render::spec_render_fixed;
use crate::round::Round;
use crate::scale::binary_bucket;
use crate::scale::binary_symbol_chars;
use crate::scale::dec_places;
use crate::scale::decimal_bucket;
use crate::scale::decimal_symbol_chars;
use crate::scale::spec_binary_bucket;
use crate::scale::spec_binary_symbol;
use crate::scale::spec_dec_places;
use crate::scale::spec_decimal_bucket;
use crate::scale::spec_decimal_symbol;
use crate::text::separate;
use crate::text::signed_chars;
use crate::text::spec_separate;
use crate::text::spec_signed_chars;
use crate::text::spec_trim_frac;
use crate::text::str_to_chars;
use crate::text::trim_frac;

verus! {

/// The mantissa after the configured rounding of `m * 10^e`.
pub open spec fn spec_rounded_mant(rounding: Rounding, m: nat, e: int) -> nat {
    match rounding {
        Rounding::Magnitude(p) => spec_round_mant(m, e, p as int),
        Rounding::SignificantDigits(p) => if m == 0 || p == 0 {
            0
        } else {
            spec_round_mant(m, e, nlen(m) + e - p)
        },
    }
}

/// The exponent after the configured rounding of `m * 10^e`.
pub open spec fn spec_rounded_exp(rounding: Rounding, m: nat, e: int) -> int {
    match rounding {
        Rounding::Magnitude(p) => spec_round_exp(m, e, p as int),
        Rounding::SignificantDigits(p) => if m == 0 || p == 0 {
            0
        } else {
            spec_round_exp(m, e, nlen(m) + e - p)
        },
    }
}

/// The sign after the configured rounding: rounding a zero input yields the
/// canonical positive zero, while a nonzero value keeps its sign, also when
/// all its digits round away.
pub open spec fn spec_rounded_neg(rounding: Rounding, neg: bool, m: nat) -> bool {
    match rounding {
        Rounding::Magnitude(_) => m != 0 && neg,
        Rounding::SignificantDigits(p) => m != 0 && p != 0 && neg,
    }
}

/// The rounded value divided by its bucket's base: for binary scaling an
/// exact division by a power of two (a multiplication by a power of five or
/// two), for the others a shift of the ten-exponent.
pub open spec fn spec_scaled(scaling: Scaling, rm: nat, re: int, m2: int, m10: int) -> (nat, int) {
    match scaling {
        Scaling::NoScaling => (rm, re),
        Scaling::Binary(_) => match spec_binary_bucket(m2) {
            Some(i) => (rm * npow(5, (10 * i) as nat), re - 10 * i),
            None => if m2 >= 0 {
                (rm * npow(5, m2 as nat), re - m2)
            } else {
                (rm * npow(2, (-m2) as nat), re)
            },
        },
        Scaling::Decimal(_) => match spec_decimal_bucket(m10) {
            Some(i) => (rm, re - (3 * i - 30)),
            None => (rm, re - m10),
        },
        Scaling::Scientific => (rm, re - m10),
    }
}

/// Whether a prefix bucket covers the magnitude under this scaling mode.
pub open spec fn spec_found(scaling: Scaling, m2: int, m10: int) -> bool {
    match scaling {
        Scaling::Binary(_) => spec_binary_bucket(m2) is Some,
        Scaling::Decimal(_) => spec_decimal_bucket(m10) is Some,
        _ => false,
    }
}

/// The space between the number and its unit symbol: present only when the
/// mode asks for one and the symbol is not empty.
pub open spec fn spec_space_if(spaced: bool, sym: Seq<char>) -> Seq<char> {
    if spaced && sym.len() > 0 {
        seq![' ']
    } else {
        Seq::empty()
    }
}

/// The scientific-notation suffix ` * base^(k)`.
pub open spec fn spec_sci_suffix(base10: bool, k: int) -> Seq<char> {
    if base10 {
        seq![' ', '*', ' ', '1', '0', '^', '('] + spec_signed_chars(k) + seq![')']
    } else {
        seq![' ', '*', ' ', '2', '^', '('] + spec_signed_chars(k) + seq![')']
    }
}

/// A finite value `(-1)^neg * m * 10^e` formatted under `f`: rounded first
/// (rounding can cross a prefix boundary), then scaled into its magnitude
/// bucket, rendered with the derived count of fractional digits, marked with
/// the unit prefix or the scientific suffix, signed, and separated.
#[verifier::opaque]
pub open spec fn spec_format_finite(f: Formatter, neg: bool, m: nat, e: int) -> Seq<char> {
    let rm = spec_rounded_mant(f.rounding, m, e);
    let re = spec_rounded_exp(f.rounding, m, e);
    let rneg = spec_rounded_neg(f.rounding, neg, m);
    let m2 = if rm == 0 {
        0
    } else {
        spec_mag2(rm, re)
    };
    let m10 = if rm == 0 {
        0
    } else {
        nlen(rm) - 1 + re
    };
    let scaled = spec_scaled(f.scaling, rm, re, m2, m10);
    let sm = scaled.0;
    let se = scaled.1;
    let sm10 = if sm == 0 {
        0
    } else {
        nlen(sm) - 1 + se
    };
    let d0 = spec_dec_places(f.scaling, f.rounding, spec_found(f.scaling, m2, m10), m2, m10, sm10);
    let places = if d0 < 0 {
        0
    } else {
        d0
    };
    let body0 = spec_render_fixed(rneg, sm, se, places as nat);
    let body = if f.trailing_zeros || places == 0 {
        body0
    } else {
        spec_trim_frac(body0)
    };
    spec_finish(f, body, m2, m10, rneg)
}

/// The tail of the pipeline: the unit prefix or scientific suffix, the sign,
/// and the separators, applied to the rendered body.
pub open spec fn spec_finish(f: Formatter, body: Seq<char>, m2: int, m10: int, rneg: bool) -> Seq<
    char,
> {
    let suffixed = match f.scaling {
        Scaling::NoScaling => body,
        Scaling::Binary(sp) => match spec_binary_bucket(m2) {
            Some(i) => body + spec_space_if(sp, spec_binary_symbol(i)) + spec_binary_symbol(i),
            None => body + spec_sci_suffix(false, m2),
        },
        Scaling::Decimal(sp) => match spec_decimal_bucket(m10) {
            Some(i) => body + spec_space_if(sp, spec_decimal_symbol(i)) + spec_decimal_symbol(i),
            None => body + spec_sci_suffix(true, m10),
        },
        Scaling::Scientific => body + spec_sci_suffix(true, m10),
    };
    let signed = if f.sign == Sign::Always && !rneg {
        seq!['+'] + suffixed
    } else {
        suffixed
    };
    spec_separate(signed, f.group_separator@, f.decimal_separator@)
}

/// What `format` returns for each kind of input: the special values render
/// as themselves (positive infinity carries a '+' only under `Sign::Always`,
/// negative infinity never takes one, and NaN is never signed), and a finite
/// value goes through the full pipeline.
pub open spec fn spec_format(f: Formatter, x: Number) -> Seq<char> {
    match x {
        Number::NaN => seq!['N', 'a', 'N'],
        Number::PositiveInfinity => if f.sign == Sign::Always {
            seq!['+', '\u{221e}']
        } else {
            seq!['\u{221e}']
        },
        Number::NegativeInfinity => seq!['-', '\u{221e}'],
        Number::Finite(d) => spec_format_finite(f, d.negative, val(d.digits@), d.exponent as int),
    }
}

/// Relies on `String`'s `FromIterator<char>`: collecting characters yields
/// the string of exactly those characters in order.
#[verifier::external_body]
fn chars_to_string(v: &Vec<char>) -> (r: String)
    ensures
        r@ == v@,
{
    v.iter().collect()
}

impl Formatter {
    /// Formats a number under this configuration: scales, rounds, and
    /// displays it as [`spec_format`] describes.
    pub fn format(&self, x: &Number) -> (r: String)
        requires
            x.wf(),
        ensures
            r@ == spec_format(*self, *x),
    {
        match x {
            Number::NaN => {
                let mut v: Vec<char> = Vec::new();
                v.push('N');
                v.push('a');
                v.push('N');
                proof {
                    assert(v@ =~= spec_format(*self, *x));
                }
                chars_to_string(&v)
            },
            Number::PositiveInfinity => {
                let mut v: Vec<char> = Vec::new();
                if self.sign == Sign::Always {
                    v.push('+');
                }
                v.push('\u{221e}');
                proof {
                    assert(v@ =~= spec_format(*self, *x));
                }
                chars_to_string(&v)
            },
            Number::NegativeInfinity => {
                let mut v: Vec<char> = Vec::new();
                v.push('-');
                v.push('\u{221e}');
                proof {
                    assert(v@ =~= spec_format(*self, *x));
                }
                chars_to_string(&v)
            },
            Number::Finite(d) => self.format_finite(d),
        }
    }

    /// The rounding stage: applies the configured rounding mode.
    fn round_per_config(&self, d: &Dec) -> (rd: Dec)
        requires
            d.wf(),
        ensures
            digits_norm(rd.digits@),
            val(rd.digits@) == spec_rounded_mant(self.rounding, val(d.digits@), d.exponent as int),
            rd.exponent as int == spec_rounded_exp(
                self.rounding,
                val(d.digits@),
                d.exponent as int,
            ),
            rd.negative == spec_rounded_neg(self.rounding, d.negative, val(d.digits@)),
            rd.digits@.len() <= 0x100001,
            -0x600000 <= rd.exponent <= 0x600000,
    {
        proof {
            if d.digits@.len() > 0 {
                crate::digits::lemma_val_norm_lower(d.digits@);
                lemma_npow_pos(10, (d.digits@.len() - 1) as nat);
            }
            lemma_nlen_norm(d.digits@);
        }
        let rd: Dec = match &self.rounding {
            Rounding::Magnitude(p) => d.round_mag(*p),
            Rounding::SignificantDigits(p) => d.round_sig(*p),
        };
        rd
    }

    /// The scaling stage: divides the rounded value by its bucket's base, or
    /// by `base^floor(magnitude)` for the scientific forms. Returns the
    /// scaled digits and exponent, whether a bucket was found, and its index.
    fn scale_per_config(&self, rd: &Dec, m2v: i64, m10v: i64) -> (r: (Vec<u8>, i64, bool, usize))
        requires
            digits_norm(rd.digits@),
            rd.digits@.len() <= 0x100001,
            -0x600000 <= rd.exponent <= 0x600000,
            -0x1800000 <= m2v <= 0x2800000,
            -0x1000000 <= m10v <= 0x1000000,
        ensures
            digits_norm(r.0@),
            val(r.0@) == spec_scaled(
                self.scaling,
                val(rd.digits@),
                rd.exponent as int,
                m2v as int,
                m10v as int,
            ).0,
            r.1 as int == spec_scaled(
                self.scaling,
                val(rd.digits@),
                rd.exponent as int,
                m2v as int,
                m10v as int,
            ).1,
            r.2 == spec_found(self.scaling, m2v as int, m10v as int),
            r.2 ==> match self.scaling {
                Scaling::Binary(_) => spec_binary_bucket(m2v as int) == Some(r.3 as int) && r.3
                    < 9,
                Scaling::Decimal(_) => spec_decimal_bucket(m10v as int) == Some(r.3 as int) && r.3
                    < 21,
                _ => false,
            },
            r.0@.len() <= 0x2a00000,
            -0x3000000 <= r.1 <= 0x3000000,
    {
        let mut sd: Vec<u8> = Vec::new();
        let mut sexp: i64 = 0;
        let mut foundv: bool = false;
        let mut bidx: usize = 0;
        match &self.scaling {
            Scaling::NoScaling => {
                sd = rd.digits.clone();
                sexp = rd.exponent;
            },
            Scaling::Scientific => {
                sd = rd.digits.clone();
                sexp = rd.exponent - m10v;
            },
            Scaling::Decimal(_) => {
                match decimal_bucket(m10v) {
                    Some(i) => {
                        sd = rd.digits.clone();
                        sexp = rd.exponent - (3 * (i as i64) - 30);
                        foundv = true;
                        bidx = i;
                    },
                    None => {
                        sd = rd.digits.clone();
                        sexp = rd.exponent - m10v;
                    },
                }
            },
            Scaling::Binary(_) => {
                match binary_bucket(m2v) {
                    Some(i) => {
                        sd = mul_pow(&rd.digits, 5, 10 * (i as u64));
                        sexp = rd.exponent - 10 * (i as i64);
                        foundv = true;
                        bidx = i;
                    },
                    None => {
                        if m2v >= 0 {
                            sd = mul_pow(&rd.digits, 5, m2v as u64);
                            sexp = rd.exponent - m2v;
                        } else {
                            sd = mul_pow(&rd.digits, 2, (-m2v) as u64);
                            sexp = rd.exponent;
                        }
                    },
                }
            },
        }
        (sd, sexp, foundv, bidx)
    }

    /// The suffix stage: appends the unit prefix (with its optional space) or
    /// the scientific-notation suffix.
    fn append_suffix(&self, body: &mut Vec<char>, foundv: bool, bidx: usize, m2v: i64, m10v: i64)
        requires
            -0x1800000 <= m2v <= 0x2800000,
            -0x1000000 <= m10v <= 0x1000000,
            foundv == spec_found(self.scaling, m2v as int, m10v as int),
            foundv ==> match self.scaling {
                Scaling::Binary(_) => spec_binary_bucket(m2v as int) == Some(bidx as int) && bidx
                    < 9,
                Scaling::Decimal(_) => spec_decimal_bucket(m10v as int) == Some(bidx as int)
                    && bidx < 21,
                _ => false,
            },
        ensures
            final(body)@ == old(body)@ + match self.scaling {
                Scaling::NoScaling => Seq::<char>::empty(),
                Scaling::Binary(sp) => match spec_binary_bucket(m2v as int) {
                    Some(i) => spec_space_if(sp, spec_binary_symbol(i)) + spec_binary_symbol(i),
                    None => spec_sci_suffix(false, m2v as int),
                },
                Scaling::Decimal(sp) => match spec_decimal_bucket(m10v as int) {
                    Some(i) => spec_space_if(sp, spec_decimal_symbol(i)) + spec_decimal_symbol(i),
                    None => spec_sci_suffix(true, m10v as int),
                },
                Scaling::Scientific => spec_sci_suffix(true, m10v as int),
            },
    {
        match &self.scaling {
            Scaling::NoScaling => {
                proof {
                    assert(final(body)@ =~= old(body)@ + Seq::<char>::empty());
                }
            },
            Scaling::Binary(sp) => {
                if foundv {
                    let mut sym = binary_symbol_chars(bidx);
                    if *sp && sym.len() > 0 {
                        body.push(' ');
                    }
                    body.append(&mut sym);
                    proof {
                        assert(final(body)@ =~= old(body)@ + (spec_space_if(
                            *sp,
                            spec_binary_symbol(bidx as int),
                        ) + spec_binary_symbol(bidx as int)));
                    }
                } else {
                    body.push(' ');
                    body.push('*');
                    body.push(' ');
                    body.push('2');
                    body.push('^');
                    body.push('(');
                    let mut ec = signed_chars(m2v);
                    body.append(&mut ec);
                    body.push(')');
                    proof {
                        assert(final(body)@ =~= old(body)@ + spec_sci_suffix(false, m2v as int));
                    }
                }
            },
            Scaling::Decimal(sp) => {
                if foundv {
                    let mut sym = decimal_symbol_chars(bidx);
                    if *sp && sym.len() > 0 {
                        body.push(' ');
                    }
                    body.append(&mut sym);
                    proof {
                        assert(final(body)@ =~= old(body)@ + (spec_space_if(
                            *sp,
                            spec_decimal_symbol(bidx as int),
                        ) + spec_decimal_symbol(bidx as int)));
                    }
                } else {
                    body.push(' ');
                    body.push('*');
                    body.push(' ');
                    body.push('1');
                    body.push('0');
                    body.push('^');
                    body.push('(');
                    let mut ec = signed_chars(m10v);
                    body.append(&mut ec);
                    body.push(')');
                    proof {
                        assert(final(body)@ =~= old(body)@ + spec_sci_suffix(true, m10v as int));
                    }
                }
            },
            Scaling::Scientific => {
                body.push(' ');
                body.push('*');
                body.push(' ');
                body.push('1');
                body.push('0');
                body.push('^');
                body.push('(');
                let mut ec = signed_chars(m10v);
                body.append(&mut ec);
                body.push(')');
                proof {
                    assert(final(body)@ =~= old(body)@ + spec_sci_suffix(true, m10v as int));
                }
            },
        }
    }

    /// The pipeline for a finite value.
    #[verifier::rlimit(100)]
    fn format_finite(&self, d: &Dec) -> (r: String)
        requires
            d.wf(),
        ensures
            r@ == spec_format_finite(*self, d.negative, val(d.digits@), d.exponent as int),
    {
        let ghost m = val(d.digits@);
        let ghost e = d.exponent as int;
        // rounding comes first: it can move the value across a prefix boundary
        let rd: Dec = self.round_per_config(d);
        let ghost rm = spec_rounded_mant(self.rounding, m, e);
        let ghost re = spec_rounded_exp(self.rounding, m, e);
        let ghost rneg = spec_rounded_neg(self.rounding, d.negative, m);
        proof {
            if rd.digits@.len() > 0 {
                crate::digits::lemma_val_norm_lower(rd.digits@);
                lemma_npow_pos(10, (rd.digits@.len() - 1) as nat);
            }
            lemma_nlen_norm(rd.digits@);
        }
        let rzero: bool = rd.digits.len() == 0;
        // the decimal magnitude: the digit count answers for the logarithm
        let m10v: i64 = if rzero {
            0
        } else {
            rd.digits.len() as i64 - 1 + rd.exponent
        };
        let ghost gm10: int = if rm == 0 {
            0
        } else {
            nlen(rm) - 1 + re
        };
        proof {
            assert(m10v as int == gm10);
        }
        // the binary magnitude, by exact doubling (binary scaling only)
        let is_binary: bool = match &self.scaling {
            Scaling::Binary(_) => true,
            _ => false,
        };
        let m2v: i64 = if is_binary && !rzero {
            let k = mag2_floor(&rd.digits, rd.exponent);
            proof {
                lemma_spec_mag2_is(rm, re, k as int);
            }
            k
        } else {
            0
        };
        let ghost gm2: int = if rm == 0 {
            0
        } else {
            spec_mag2(rm, re)
        };
        proof {
            if rzero || is_binary {
                assert(m2v as int == gm2);
            }
        }
        // scale into the bucket
        let ghost scaled = spec_scaled(self.scaling, rm, re, gm2, gm10);
        let (sd, sexp, foundv, bidx) = self.scale_per_config(&rd, m2v, m10v);
        proof {
            assert(val(sd@) == scaled.0 && sexp as int == scaled.1) by {
                if !(rzero || is_binary) {
                    // outside binary scaling the scaled value ignores the
                    // binary magnitude
                    assert(spec_scaled(self.scaling, rm, re, m2v as int, gm10) == spec_scaled(
                        self.scaling,
                        rm,
                        re,
                        gm2,
                        gm10,
                    ));
                }
            }
            assert(foundv == spec_found(self.scaling, gm2, gm10)) by {
                if !(rzero || is_binary) {
                    assert(spec_found(self.scaling, m2v as int, gm10) == spec_found(
                        self.scaling,
                        gm2,
                        gm10,
                    ));
                }
            }
            lemma_nlen_norm(sd@);
        }
        // the scaled value's decimal magnitude decides the digit count for
        // binary scaling with significant-digit rounding
        let sm10v: i64 = if sd.len() == 0 {
            0
        } else {
            sd.len() as i64 - 1 + sexp
        };
        let ghost gsm10: int = if scaled.0 == 0 {
            0
        } else {
            nlen(scaled.0) - 1 + scaled.1
        };
        proof {
            assert(sm10v as int == gsm10);
        }
        let dec = dec_places(&self.scaling, &self.rounding, foundv, m2v, m10v, sm10v);
        let ghost d0 = spec_dec_places(
            self.scaling,
            self.rounding,
            spec_found(self.scaling, gm2, gm10),
            gm2,
            gm10,
            gsm10,
        );
        proof {
            assert(dec as int == if d0 < 0 {
                0
            } else {
                d0
            }) by {
                if !(rzero || is_binary) {
                    // outside binary scaling no formula reads the binary magnitude
                    assert(spec_dec_places(
                        self.scaling,
                        self.rounding,
                        foundv,
                        m2v as int,
                        gm10,
                        gsm10,
                    ) == d0);
                }
            }
        }
        let places: usize = dec as usize;
        let mut body = render_fixed(rd.negative, &sd, sexp, places);
        if !self.trailing_zeros && places > 0 {
            trim_frac(&mut body);
        }
        let ghost gbody = {
            let body0 = spec_render_fixed(rneg, scaled.0, scaled.1, places as nat);
            if self.trailing_zeros || places == 0 {
                body0
            } else {
                spec_trim_frac(body0)
            }
        };
        proof {
            assert(body@ == gbody);
        }
        let out = self.finish(body, foundv, bidx, m2v, m10v, rd.negative);
        proof {
            assert(out@ == spec_format_finite(*self, d.negative, m, e)) by {
                reveal(spec_format_finite);
                if !(rzero || is_binary) {
                    assert(spec_finish(*self, gbody, m2v as int, gm10, rneg) == spec_finish(
                        *self,
                        gbody,
                        gm2,
                        gm10,
                        rneg,
                    ));
                }
            }
        }
        out
    }

    /// The tail of the pipeline: suffix, sign, and separators.
    fn finish(
        &self,
        body: Vec<char>,
        foundv: bool,
        bidx: usize,
        m2v: i64,
        m10v: i64,
        rneg: bool,
    ) -> (r: String)
        requires
            -0x1800000 <= m2v <= 0x2800000,
            -0x1000000 <= m10v <= 0x1000000,
            foundv == spec_found(self.scaling, m2v as int, m10v as int),
            foundv ==> match self.scaling {
                Scaling::Binary(_) => spec_binary_bucket(m2v as int) == Some(bidx as int) && bidx
                    < 9,
                Scaling::Decimal(_) => spec_decimal_bucket(m10v as int) == Some(bidx as int)
                    && bidx < 21,
                _ => false,
            },
        ensures
            r@ == spec_finish(*self, body@, m2v as int, m10v as int, rneg),
    {
        let mut body = body;
        let ghost gbody = body@;
        // unit prefix or scientific suffix
        self.append_suffix(&mut body, foundv, bidx, m2v, m10v);
        let ghost gsuffixed = match self.scaling {
            Scaling::NoScaling => gbody,
            Scaling::Binary(sp) => match spec_binary_bucket(m2v as int) {
                Some(i) => gbody + spec_space_if(sp, spec_binary_symbol(i)) + spec_binary_symbol(
                    i,
                ),
                None => gbody + spec_sci_suffix(false, m2v as int),
            },
            Scaling::Decimal(sp) => match spec_decimal_bucket(m10v as int) {
                Some(i) => gbody + spec_space_if(sp, spec_decimal_symbol(i)) + spec_decimal_symbol(
                    i,
                ),
                None => gbody + spec_sci_suffix(true, m10v as int),
            },
            Scaling::Scientific => gbody + spec_sci_suffix(true, m10v as int),
        };
        proof {
            assert(body@ =~= gsuffixed);
        }
        // the sign, before the separators
        if self.sign == Sign::Always && !rneg {
            let mut signed_out: Vec<char> = Vec::new();
            signed_out.push('+');
            signed_out.append(&mut body);
            body = signed_out;
        }
        let ghost gsigned = if self.sign == Sign::Always && !rneg {
            seq!['+'] + gsuffixed
        } else {
            gsuffixed
        };
        proof {
            assert(body@ =~= gsigned);
        }
        // group and decimal separators
        let gs = str_to_chars(self.group_separator.as_str());
        let ds = str_to_chars(self.decimal_separator.as_str());
        let out = separate(&body, &gs, &ds);
        chars_to_string(&out)
    }
}

} // verus!
