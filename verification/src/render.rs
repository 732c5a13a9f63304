//! Rendering a finite decimal as characters: the digits of the integer part,
//! a decimal point, and a fixed count of fractional digits, rounded
//! half-to-even where the digits run out.
//!
//! Everything here works on character vectors; the decimal point is the
//! internal '.' until the separator stage substitutes the configured one.

use vstd::prelude::*;

use crate::digits::digits_norm;
use crate::digits::digits_wf;
use crate::digits::high_part;
use crate::digits::lemma_npow_pos;
use crate::digits::lemma_val_bound;
use crate::digits::lemma_val_split;
use crate::digits::lemma_val_zero_iff;
use crate::digits::pow10;
use crate::digits::shift_up;
use crate::digits::val;
use crate::number::Dec;
use crate::number::half_even_div;
use crate::number::spec_round_mant;

verus! {

/// The character of a single decimal digit.
pub open spec fn dchar(d: nat) -> char {
    if d == 0 {
        '0'
    } else if d == 1 {
        '1'
    } else if d == 2 {
        '2'
    } else if d == 3 {
        '3'
    } else if d == 4 {
        '4'
    } else if d == 5 {
        '5'
    } else if d == 6 {
        '6'
    } else if d == 7 {
        '7'
    } else if d == 8 {
        '8'
    } else {
        '9'
    }
}

/// The decimal digits of `n`, most significant first; zero is "0".
pub open spec fn digits_of(n: nat) -> Seq<char>
    decreases n,
{
    if n < 10 {
        seq![dchar(n)]
    } else {
        digits_of(n / 10).push(dchar(n % 10))
    }
}

/// Exactly `len` decimal digits of `n`, most significant first, zero-padded
/// on the left.
pub open spec fn fixed_digits(n: nat, len: nat) -> Seq<char>
    decreases len,
{
    if len == 0 {
        Seq::empty()
    } else {
        fixed_digits(n / 10, (len - 1) as nat).push(dchar(n % 10))
    }
}

/// The character of a single decimal digit.
pub fn digit_char(d: u8) -> (r: char)
    requires
        d < 10,
    ensures
        r == dchar(d as nat),
{
    if d == 0 {
        '0'
    } else if d == 1 {
        '1'
    } else if d == 2 {
        '2'
    } else if d == 3 {
        '3'
    } else if d == 4 {
        '4'
    } else if d == 5 {
        '5'
    } else if d == 6 {
        '6'
    } else if d == 7 {
        '7'
    } else if d == 8 {
        '8'
    } else {
        '9'
    }
}

/// The digit characters of a little-endian digit vector, most significant
/// first; the empty vector renders as "0".
pub fn int_chars(d: &Vec<u8>) -> (r: Vec<char>)
    requires
        digits_norm(d@),
    ensures
        r@ == digits_of(val(d@)),
        r@.len() == if d@.len() == 0 { 1int } else { d@.len() as int },
{
    let n = d.len();
    let mut out: Vec<char> = Vec::new();
    if n == 0 {
        out.push('0');
        proof {
            assert(out@ =~= digits_of(0));
        }
        return out;
    }
    proof {
        crate::digits::lemma_val_norm_lower(d@);
        lemma_npow_pos(10, (n - 1) as nat);
        crate::digits::lemma_val_singleton(d@.skip(n - 1));
    }
    out.push(digit_char(d[n - 1]));
    let mut j: usize = n - 1;
    proof {
        assert(val(d@.skip(j as int)) == d@[j as int] as nat);
        assert(val(d@.skip(j as int)) < 10);
        assert(out@ =~= digits_of(val(d@.skip(j as int))));
    }
    while j > 0
        invariant
            0 <= j <= n - 1,
            n == d@.len(),
            digits_norm(d@),
            out@ == digits_of(val(d@.skip(j as int))),
            out@.len() == n - j,
            val(d@.skip(j as int)) >= 1,
        decreases j,
    {
        j = j - 1;
        let ghost vpre = val(d@.skip(j + 1));
        let ghost vnew = val(d@.skip(j as int));
        proof {
            assert(d@.skip(j as int).skip(1) =~= d@.skip(j + 1));
            assert(vnew == d@[j as int] as nat + 10 * vpre);
            assert(vnew / 10 == vpre && vnew % 10 == d@[j as int] as nat) by (nonlinear_arith)
                requires
                    vnew == d@[j as int] as nat + 10 * vpre,
                    0 <= d@[j as int] < 10,
            ;
            assert(vnew >= 10) by (nonlinear_arith)
                requires
                    vnew == d@[j as int] as nat + 10 * vpre,
                    vpre >= 1,
                    d@[j as int] >= 0,
            ;
            assert(digits_of(vnew) == digits_of(vpre).push(dchar(d@[j as int] as nat)));
        }
        out.push(digit_char(d[j]));
    }
    proof {
        assert(d@.skip(0) =~= d@);
    }
    out
}

/// The low `places` digit positions of a digit vector as characters, most
/// significant first; positions beyond the vector are zero.
pub fn frac_chars(d: &Vec<u8>, places: usize) -> (r: Vec<char>)
    requires
        digits_wf(d@),
    ensures
        r@ == fixed_digits(val(pad_low(d@, places as nat)), places as nat),
        r@.len() == places,
{
    let ghost fpad = pad_low(d@, places as nat);
    let n = d.len();
    let mut out: Vec<char> = Vec::new();
    let mut j: usize = places;
    proof {
        assert(fpad.skip(places as int) =~= Seq::<u8>::empty());
        assert(out@ =~= fixed_digits(val(fpad.skip(j as int)), (places - j) as nat));
    }
    while j > 0
        invariant
            0 <= j <= places,
            n == d@.len(),
            digits_wf(d@),
            fpad == pad_low(d@, places as nat),
            fpad.len() == places,
            digits_wf(fpad),
            out@ == fixed_digits(val(fpad.skip(j as int)), (places - j) as nat),
            out@.len() == places - j,
        decreases j,
    {
        j = j - 1;
        let digit: u8 = if j < n {
            d[j]
        } else {
            0
        };
        let ghost vpre = val(fpad.skip(j + 1));
        let ghost vnew = val(fpad.skip(j as int));
        proof {
            assert(fpad[j as int] == digit);
            assert(fpad.skip(j as int).skip(1) =~= fpad.skip(j + 1));
            assert(vnew == digit as nat + 10 * vpre);
            assert(vnew / 10 == vpre && vnew % 10 == digit as nat) by (nonlinear_arith)
                requires
                    vnew == digit as nat + 10 * vpre,
                    0 <= digit < 10,
            ;
        }
        out.push(digit_char(digit));
    }
    proof {
        assert(fpad.skip(0) =~= fpad);
    }
    out
}

/// `s` cut or zero-padded to exactly `places` low digit positions.
pub open spec fn pad_low(s: Seq<u8>, places: nat) -> Seq<u8> {
    Seq::new(places, |i: int| if i < s.len() { s[i] } else { 0u8 })
}

/// The value of the padded low positions is the value modulo 10^places.
pub proof fn lemma_pad_low_val(s: Seq<u8>, places: nat)
    requires
        digits_wf(s),
    ensures
        val(pad_low(s, places)) == val(s) % pow10(places),
{
    let f = pad_low(s, places);
    lemma_npow_pos(10, places);
    if places <= s.len() {
        assert(f =~= s.take(places as int));
        lemma_val_split(s, places as int);
        lemma_val_bound(s.take(places as int));
        assert(pow10(places) * val(s.skip(places as int)) == val(s.skip(places as int)) * pow10(
            places,
        )) by (nonlinear_arith);
        vstd::arithmetic::div_mod::lemma_fundamental_div_mod_converse(
            val(s) as int,
            pow10(places) as int,
            val(s.skip(places as int)) as int,
            val(s.take(places as int)) as int,
        );
    } else {
        // padding with zeros above the digits does not change the value
        assert(f.take(s.len() as int) =~= s);
        lemma_val_split(f, s.len() as int);
        assert(forall|i: int| 0 <= i < f.skip(s.len() as int).len() ==> f.skip(s.len() as int)[i] == 0);
        lemma_val_zero_iff(f.skip(s.len() as int));
        assert(pow10(s.len() as nat) * val(f.skip(s.len() as int)) == 0) by (nonlinear_arith)
            requires
                val(f.skip(s.len() as int)) == 0,
        ;
        lemma_val_bound(s);
        crate::digits::lemma_npow_increases(10, s.len() as nat, places);
        assert(val(s) % pow10(places) == val(s)) by (nonlinear_arith)
            requires
                0 <= val(s) < pow10(places),
        ;
    }
}

/// The mantissa of `(m, e)` brought to the fixed exponent `-places`: scaled
/// up by a power of ten, or rounded half-to-even where digits fall away.
pub open spec fn spec_fixed_mant(m: nat, e: int, places: nat) -> nat {
    if m == 0 {
        0
    } else if e >= -(places as int) {
        m * pow10((e + places) as nat)
    } else {
        half_even_div(m, (-(places as int) - e) as nat)
    }
}

/// A finite decimal rendered with exactly `places` fractional digits: an
/// optional minus sign, the integer digits, and for a positive `places` a
/// '.' followed by the fractional digits, the last rounded half-to-even.
pub open spec fn spec_render_fixed(neg: bool, m: nat, e: int, places: nat) -> Seq<char> {
    let n = spec_fixed_mant(m, e, places);
    let sign: Seq<char> = if neg {
        seq!['-']
    } else {
        Seq::empty()
    };
    if places == 0 {
        sign + digits_of(n / pow10(0))
    } else {
        sign + digits_of(n / pow10(places)) + seq!['.'] + fixed_digits(n % pow10(places), places)
    }
}

/// Renders `(negative, digits, exponent)` with exactly `places` fractional
/// digits, rounding half-to-even where the digits run out.
pub fn render_fixed(negative: bool, digits: &Vec<u8>, exponent: i64, places: usize) -> (r: Vec<
    char,
>)
    requires
        digits_norm(digits@),
        digits@.len() <= 0x8000000,
        -0x8000000 <= exponent <= 0x8000000,
        places <= 0x40000000,
    ensures
        r@ == spec_render_fixed(negative, val(digits@), exponent as int, places as nat),
        r@.len() <= 3 + digits@.len() + places + (if exponent >= 0 {
            exponent as int
        } else {
            0
        }),
{
    let ghost s = digits@;
    let ghost e = exponent as int;
    let ghost nmant = spec_fixed_mant(val(s), e, places as nat);
    // bring the mantissa to the fixed exponent -places
    let d2: Vec<u8> = if digits.len() == 0 {
        Vec::new()
    } else if exponent >= -(places as i64) {
        let shift = (exponent + places as i64) as usize;
        let r = shift_up(digits, shift);
        proof {
            crate::digits::lemma_val_norm_lower(s);
            lemma_npow_pos(10, (s.len() - 1) as nat);
        }
        r
    } else {
        let tmp = Dec { negative, digits: digits.clone(), exponent };
        let rd = tmp.round_at(-(places as i64));
        proof {
            crate::digits::lemma_val_norm_lower(s);
            lemma_npow_pos(10, (s.len() - 1) as nat);
            assert(val(rd.digits@) == spec_round_mant(val(s), e, -(places as int)));
            assert(val(rd.digits@) == nmant);
        }
        rd.digits
    };
    proof {
        assert(val(d2@) == nmant);
        assert(digits_norm(d2@));
    }
    // split into the integer part and the fractional part
    let ip: Vec<u8> = if d2.len() > places {
        let h = high_part(&d2, places);
        proof {
            assert(h@ == d2@.skip(places as int));
            assert(h@[h@.len() - 1] == d2@[d2@.len() - 1]);
            lemma_val_split(d2@, places as int);
            lemma_val_bound(d2@.take(places as int));
            lemma_npow_pos(10, places as nat);
            assert(pow10(places as nat) * val(d2@.skip(places as int)) == val(
                d2@.skip(places as int),
            ) * pow10(places as nat)) by (nonlinear_arith);
            vstd::arithmetic::div_mod::lemma_fundamental_div_mod_converse(
                val(d2@) as int,
                pow10(places as nat) as int,
                val(d2@.skip(places as int)) as int,
                val(d2@.take(places as int)) as int,
            );
        }
        h
    } else {
        proof {
            lemma_val_bound(d2@);
            lemma_npow_pos(10, places as nat);
            crate::digits::lemma_npow_increases(10, d2@.len() as nat, places as nat);
            assert(val(d2@) / pow10(places as nat) == 0) by (nonlinear_arith)
                requires
                    0 <= val(d2@) < pow10(places as nat),
            ;
        }
        Vec::new()
    };
    proof {
        assert(val(ip@) == nmant / pow10(places as nat));
        assert(digits_norm(ip@));
    }
    let mut out: Vec<char> = Vec::new();
    if negative {
        out.push('-');
    }
    let mut ipc = int_chars(&ip);
    let ghost out_sign = out@;
    out.append(&mut ipc);
    if places > 0 {
        out.push('.');
        let mut fc = frac_chars(&d2, places);
        proof {
            lemma_pad_low_val(d2@, places as nat);
        }
        out.append(&mut fc);
        proof {
            assert(out@ =~= spec_render_fixed(negative, val(s), e, places as nat));
        }
    } else {
        proof {
            crate::digits::lemma_pow10_zero();
            assert(nmant / pow10(0) == nmant) by (nonlinear_arith)
                requires
                    pow10(0) == 1,
            ;
            assert(out@ =~= spec_render_fixed(negative, val(s), e, places as nat));
        }
    }
    out
}

} // verus!
