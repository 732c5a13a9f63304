//! The magnitude buckets of the two prefix tables, their unit symbols, and
//! the count of fractional digits each (scaling, rounding) pair calls for.
//!
//! The binary table covers magnitudes [0, 90) in nine buckets of width 10;
//! the decimal table covers [-30, 33) in twenty-one buckets of width 3.
//! Intervals within one table are contiguous and non-overlapping; a magnitude
//! outside the covered range has no bucket, which makes the renderer fall
//! back to scientific notation.

use vstd::prelude::*;

use crate::digits::npow;
use crate::digits::pow10;
use crate::options::Rounding;
use crate::options::Scaling;

verus! {

/// Floor division: the exec twin of the mathematical `/` on `int`.
pub fn div_floor(a: i64, b: i64) -> (r: i64)
    requires
        b > 0,
        -0x4000_0000_0000 <= a <= 0x4000_0000_0000,
        b <= 0x1000,
    ensures
        r == a as int / b as int,
{
    if a >= 0 {
        let q = (a as u64) / (b as u64);
        q as i64
    } else {
        let na = (-a) as u64;
        let bu = b as u64;
        let q = na / bu;
        let rem = na % bu;
        proof {
            vstd::arithmetic::div_mod::lemma_fundamental_div_mod(na as int, bu as int);
            if rem == 0 {
                assert(a as int == b as int * (-(q as int)) + 0) by (nonlinear_arith)
                    requires
                        na as int == bu as int * (q as int) + rem as int,
                        rem == 0,
                        a as int == -(na as int),
                        b as int == bu as int,
                ;
                vstd::arithmetic::div_mod::lemma_fundamental_div_mod_converse(
                    a as int,
                    b as int,
                    -(q as int),
                    0,
                );
            } else {
                assert(a as int == b as int * (-(q as int) - 1) + (b - rem)) by (nonlinear_arith)
                    requires
                        na as int == bu as int * (q as int) + rem as int,
                        a as int == -(na as int),
                        b as int == bu as int,
                ;
                vstd::arithmetic::div_mod::lemma_fundamental_div_mod_converse(
                    a as int,
                    b as int,
                    -(q as int) - 1,
                    b as int - rem as int,
                );
            }
        }
        if rem == 0 {
            -(q as i64)
        } else {
            -(q as i64) - 1
        }
    }
}

/// Euclidean remainder: the exec twin of the mathematical `%` on `int`.
pub fn mod_floor(a: i64, b: i64) -> (r: i64)
    requires
        b > 0,
        -0x4000_0000_0000 <= a <= 0x4000_0000_0000,
        b <= 0x1000,
    ensures
        r == a as int % b as int,
{
    if a >= 0 {
        let rem = (a as u64) % (b as u64);
        rem as i64
    } else {
        let na = (-a) as u64;
        let bu = b as u64;
        let q = na / bu;
        let rem = na % bu;
        proof {
            vstd::arithmetic::div_mod::lemma_fundamental_div_mod(na as int, bu as int);
            if rem == 0 {
                assert(a as int == b as int * (-(q as int)) + 0) by (nonlinear_arith)
                    requires
                        na as int == bu as int * (q as int) + rem as int,
                        rem == 0,
                        a as int == -(na as int),
                        b as int == bu as int,
                ;
                vstd::arithmetic::div_mod::lemma_fundamental_div_mod_converse(
                    a as int,
                    b as int,
                    -(q as int),
                    0,
                );
            } else {
                assert(a as int == b as int * (-(q as int) - 1) + (b - rem)) by (nonlinear_arith)
                    requires
                        na as int == bu as int * (q as int) + rem as int,
                        a as int == -(na as int),
                        b as int == bu as int,
                ;
                vstd::arithmetic::div_mod::lemma_fundamental_div_mod_converse(
                    a as int,
                    b as int,
                    -(q as int) - 1,
                    b as int - rem as int,
                );
            }
        }
        if rem == 0 {
            0
        } else {
            b - (rem as i64)
        }
    }
}

/// The bucket of the binary table that covers magnitude `k`: bucket `i`
/// spans [10i, 10(i+1)) for i in 0..9.
pub open spec fn spec_binary_bucket(k: int) -> Option<int> {
    if 0 <= k < 90 {
        Some(k / 10)
    } else {
        None
    }
}

/// The bucket of the decimal table that covers magnitude `k`: bucket `i`
/// spans [3i - 30, 3i - 27) for i in 0..21.
pub open spec fn spec_decimal_bucket(k: int) -> Option<int> {
    if -30 <= k < 33 {
        Some((k + 30) / 3)
    } else {
        None
    }
}

/// Looks up the binary bucket covering magnitude `k`.
pub fn binary_bucket(k: i64) -> (r: Option<usize>)
    requires
        -0x4000_0000_0000 <= k <= 0x4000_0000_0000,
    ensures
        match r {
            Some(i) => spec_binary_bucket(k as int) == Some(i as int) && i < 9 && 10 * i <= k < 10
                * (i + 1),
            None => spec_binary_bucket(k as int) is None,
        },
{
    if 0 <= k && k < 90 {
        Some((k / 10) as usize)
    } else {
        None
    }
}

/// Looks up the decimal bucket covering magnitude `k`.
pub fn decimal_bucket(k: i64) -> (r: Option<usize>)
    requires
        -0x4000_0000_0000 <= k <= 0x4000_0000_0000,
    ensures
        match r {
            Some(i) => spec_decimal_bucket(k as int) == Some(i as int) && i < 21 && 3 * i - 30 <= k
                < 3 * i - 27,
            None => spec_decimal_bucket(k as int) is None,
        },
{
    if -30 <= k && k < 33 {
        Some(((k + 30) / 3) as usize)
    } else {
        None
    }
}

/// The unit symbol of binary bucket `i`: "", Ki, Mi, Gi, Ti, Pi, Ei, Zi, Yi.
pub open spec fn spec_binary_symbol(i: int) -> Seq<char> {
    if i == 1 {
        seq!['K', 'i']
    } else if i == 2 {
        seq!['M', 'i']
    } else if i == 3 {
        seq!['G', 'i']
    } else if i == 4 {
        seq!['T', 'i']
    } else if i == 5 {
        seq!['P', 'i']
    } else if i == 6 {
        seq!['E', 'i']
    } else if i == 7 {
        seq!['Z', 'i']
    } else if i == 8 {
        seq!['Y', 'i']
    } else {
        Seq::empty()
    }
}

/// The SI unit symbol of decimal bucket `i`, from "q" at magnitude -30 up to
/// "Q" at magnitude 30, with the empty symbol at [0, 3).
pub open spec fn spec_decimal_symbol(i: int) -> Seq<char> {
    if i == 0 {
        seq!['q']
    } else if i == 1 {
        seq!['r']
    } else if i == 2 {
        seq!['y']
    } else if i == 3 {
        seq!['z']
    } else if i == 4 {
        seq!['a']
    } else if i == 5 {
        seq!['f']
    } else if i == 6 {
        seq!['p']
    } else if i == 7 {
        seq!['n']
    } else if i == 8 {
        seq!['\u{b5}']
    } else if i == 9 {
        seq!['m']
    } else if i == 11 {
        seq!['k']
    } else if i == 12 {
        seq!['M']
    } else if i == 13 {
        seq!['G']
    } else if i == 14 {
        seq!['T']
    } else if i == 15 {
        seq!['P']
    } else if i == 16 {
        seq!['E']
    } else if i == 17 {
        seq!['Z']
    } else if i == 18 {
        seq!['Y']
    } else if i == 19 {
        seq!['R']
    } else if i == 20 {
        seq!['Q']
    } else {
        Seq::empty()
    }
}

/// The characters of the binary bucket's unit symbol.
pub fn binary_symbol_chars(i: usize) -> (r: Vec<char>)
    requires
        i < 9,
    ensures
        r@ == spec_binary_symbol(i as int),
{
    let mut v: Vec<char> = Vec::new();
    if i == 1 {
        v.push('K');
        v.push('i');
    } else if i == 2 {
        v.push('M');
        v.push('i');
    } else if i == 3 {
        v.push('G');
        v.push('i');
    } else if i == 4 {
        v.push('T');
        v.push('i');
    } else if i == 5 {
        v.push('P');
        v.push('i');
    } else if i == 6 {
        v.push('E');
        v.push('i');
    } else if i == 7 {
        v.push('Z');
        v.push('i');
    } else if i == 8 {
        v.push('Y');
        v.push('i');
    }
    proof {
        assert(v@ =~= spec_binary_symbol(i as int));
    }
    v
}

/// The characters of the decimal bucket's unit symbol.
pub fn decimal_symbol_chars(i: usize) -> (r: Vec<char>)
    requires
        i < 21,
    ensures
        r@ == spec_decimal_symbol(i as int),
{
    let mut v: Vec<char> = Vec::new();
    if i == 0 {
        v.push('q');
    } else if i == 1 {
        v.push('r');
    } else if i == 2 {
        v.push('y');
    } else if i == 3 {
        v.push('z');
    } else if i == 4 {
        v.push('a');
    } else if i == 5 {
        v.push('f');
    } else if i == 6 {
        v.push('p');
    } else if i == 7 {
        v.push('n');
    } else if i == 8 {
        v.push('\u{b5}');
    } else if i == 9 {
        v.push('m');
    } else if i == 11 {
        v.push('k');
    } else if i == 12 {
        v.push('M');
    } else if i == 13 {
        v.push('G');
    } else if i == 14 {
        v.push('T');
    } else if i == 15 {
        v.push('P');
    } else if i == 16 {
        v.push('E');
    } else if i == 17 {
        v.push('Z');
    } else if i == 18 {
        v.push('Y');
    } else if i == 19 {
        v.push('R');
    } else if i == 20 {
        v.push('Q');
    }
    proof {
        assert(v@ =~= spec_decimal_symbol(i as int));
    }
    v
}

/// Within the binary table, `2^(10k)` has exactly `3k + 1` decimal digits:
/// `floor(log10(2^(10k))) == 3k` for every bucket index k. This is why the
/// fractional-digit formulas below may write `3 * (mag2 / 10)` for the
/// decimal magnitude of the binary bucket's base.
pub proof fn lemma_binary_base_digits(k: nat)
    requires
        k < 9,
    ensures
        pow10(3 * k) <= npow(2, 10 * k),
        npow(2, 10 * k) < pow10(3 * k + 1),
{
    assert(npow(2, 0) == 1);
    assert(npow(10, 0) == 1);
    assert(npow(2, 1) == 2);
    assert(npow(2, 2) == 4);
    assert(npow(2, 3) == 8);
    assert(npow(2, 4) == 16);
    assert(npow(2, 5) == 32);
    assert(npow(2, 6) == 64);
    assert(npow(2, 7) == 128);
    assert(npow(2, 8) == 256);
    assert(npow(2, 9) == 512);
    assert(npow(2, 10) == 1024);
    assert(npow(2, 11) == 2048);
    assert(npow(2, 12) == 4096);
    assert(npow(2, 13) == 8192);
    assert(npow(2, 14) == 16384);
    assert(npow(2, 15) == 32768);
    assert(npow(2, 16) == 65536);
    assert(npow(2, 17) == 131072);
    assert(npow(2, 18) == 262144);
    assert(npow(2, 19) == 524288);
    assert(npow(2, 20) == 1048576);
    assert(npow(2, 21) == 2097152);
    assert(npow(2, 22) == 4194304);
    assert(npow(2, 23) == 8388608);
    assert(npow(2, 24) == 16777216);
    assert(npow(2, 25) == 33554432);
    assert(npow(2, 26) == 67108864);
    assert(npow(2, 27) == 134217728);
    assert(npow(2, 28) == 268435456);
    assert(npow(2, 29) == 536870912);
    assert(npow(2, 30) == 1073741824);
    assert(npow(2, 31) == 2147483648);
    assert(npow(2, 32) == 4294967296);
    assert(npow(2, 33) == 8589934592);
    assert(npow(2, 34) == 17179869184);
    assert(npow(2, 35) == 34359738368);
    assert(npow(2, 36) == 68719476736);
    assert(npow(2, 37) == 137438953472);
    assert(npow(2, 38) == 274877906944);
    assert(npow(2, 39) == 549755813888);
    assert(npow(2, 40) == 1099511627776);
    assert(npow(2, 41) == 2199023255552);
    assert(npow(2, 42) == 4398046511104);
    assert(npow(2, 43) == 8796093022208);
    assert(npow(2, 44) == 17592186044416);
    assert(npow(2, 45) == 35184372088832);
    assert(npow(2, 46) == 70368744177664);
    assert(npow(2, 47) == 140737488355328);
    assert(npow(2, 48) == 281474976710656);
    assert(npow(2, 49) == 562949953421312);
    assert(npow(2, 50) == 1125899906842624);
    assert(npow(2, 51) == 2251799813685248);
    assert(npow(2, 52) == 4503599627370496);
    assert(npow(2, 53) == 9007199254740992);
    assert(npow(2, 54) == 18014398509481984);
    assert(npow(2, 55) == 36028797018963968);
    assert(npow(2, 56) == 72057594037927936);
    assert(npow(2, 57) == 144115188075855872);
    assert(npow(2, 58) == 288230376151711744);
    assert(npow(2, 59) == 576460752303423488);
    assert(npow(2, 60) == 1152921504606846976);
    assert(npow(2, 61) == 2305843009213693952);
    assert(npow(2, 62) == 4611686018427387904);
    assert(npow(2, 63) == 9223372036854775808);
    assert(npow(2, 64) == 18446744073709551616);
    assert(npow(2, 65) == 36893488147419103232);
    assert(npow(2, 66) == 73786976294838206464);
    assert(npow(2, 67) == 147573952589676412928);
    assert(npow(2, 68) == 295147905179352825856);
    assert(npow(2, 69) == 590295810358705651712);
    assert(npow(2, 70) == 1180591620717411303424);
    assert(npow(2, 71) == 2361183241434822606848);
    assert(npow(2, 72) == 4722366482869645213696);
    assert(npow(2, 73) == 9444732965739290427392);
    assert(npow(2, 74) == 18889465931478580854784);
    assert(npow(2, 75) == 37778931862957161709568);
    assert(npow(2, 76) == 75557863725914323419136);
    assert(npow(2, 77) == 151115727451828646838272);
    assert(npow(2, 78) == 302231454903657293676544);
    assert(npow(2, 79) == 604462909807314587353088);
    assert(npow(2, 80) == 1208925819614629174706176);
    assert(npow(10, 1) == 10);
    assert(npow(10, 2) == 100);
    assert(npow(10, 3) == 1000);
    assert(npow(10, 4) == 10000);
    assert(npow(10, 5) == 100000);
    assert(npow(10, 6) == 1000000);
    assert(npow(10, 7) == 10000000);
    assert(npow(10, 8) == 100000000);
    assert(npow(10, 9) == 1000000000);
    assert(npow(10, 10) == 10000000000);
    assert(npow(10, 11) == 100000000000);
    assert(npow(10, 12) == 1000000000000);
    assert(npow(10, 13) == 10000000000000);
    assert(npow(10, 14) == 100000000000000);
    assert(npow(10, 15) == 1000000000000000);
    assert(npow(10, 16) == 10000000000000000);
    assert(npow(10, 17) == 100000000000000000);
    assert(npow(10, 18) == 1000000000000000000);
    assert(npow(10, 19) == 10000000000000000000);
    assert(npow(10, 20) == 100000000000000000000);
    assert(npow(10, 21) == 1000000000000000000000);
    assert(npow(10, 22) == 10000000000000000000000);
    assert(npow(10, 23) == 100000000000000000000000);
    assert(npow(10, 24) == 1000000000000000000000000);
    assert(npow(10, 25) == 10000000000000000000000000);
}

/// The count of fractional digits to render, by case on (scaling, rounding),
/// before the clamp at zero.
///
/// `found` says whether a prefix bucket covers the magnitude; `mag2` is the
/// floor of the binary magnitude, `mag10` the floor of the decimal magnitude,
/// and `scaled_mag10` the floor of the decimal magnitude of the value already
/// divided by its binary bucket's base (used only for binary scaling with
/// significant-digit rounding, where the fractional position of the binary
/// magnitude decides the digit count).
pub open spec fn spec_dec_places(
    scaling: Scaling,
    rounding: Rounding,
    found: bool,
    mag2: int,
    mag10: int,
    scaled_mag10: int,
) -> int {
    match (scaling, rounding) {
        (Scaling::Binary(_), Rounding::Magnitude(p)) => if found {
            3 * (mag2 / 10) - p - 1
        } else {
            mag2
        },
        (Scaling::Binary(_), Rounding::SignificantDigits(p)) => if found {
            -scaled_mag10 + p - 1
        } else {
            p - 1
        },
        (Scaling::Decimal(_), Rounding::Magnitude(p)) => if found {
            3 * (mag10 / 3) - p
        } else {
            mag10
        },
        (Scaling::Decimal(_), Rounding::SignificantDigits(p)) => if found {
            -(mag10 % 3) + p - 1
        } else {
            p - 1
        },
        (Scaling::NoScaling, Rounding::Magnitude(p)) => -p,
        (Scaling::NoScaling, Rounding::SignificantDigits(p)) => -mag10 + p - 1,
        (Scaling::Scientific, Rounding::Magnitude(_)) => mag10,
        (Scaling::Scientific, Rounding::SignificantDigits(p)) => p - 1,
    }
}

/// Computes [`spec_dec_places`] and clamps it at zero.
pub fn dec_places(
    scaling: &Scaling,
    rounding: &Rounding,
    found: bool,
    mag2: i64,
    mag10: i64,
    scaled_mag10: i64,
) -> (r: i64)
    requires
        -0x1000_0000 <= mag2 <= 0x1000_0000,
        -0x1000_0000 <= mag10 <= 0x1000_0000,
        -0x1000_0000 <= scaled_mag10 <= 0x1000_0000,
    ensures
        r == if spec_dec_places(*scaling, *rounding, found, mag2 as int, mag10 as int, scaled_mag10 as int) < 0 {
            0
        } else {
            spec_dec_places(*scaling, *rounding, found, mag2 as int, mag10 as int, scaled_mag10 as int)
        },
        0 <= r <= 0x4000_0000,
{
    let d: i64 = match (scaling, rounding) {
        (Scaling::Binary(_), Rounding::Magnitude(p)) => {
            if found {
                3 * div_floor(mag2, 10) - *p as i64 - 1
            } else {
                mag2
            }
        },
        (Scaling::Binary(_), Rounding::SignificantDigits(p)) => {
            if found {
                -scaled_mag10 + *p as i64 - 1
            } else {
                *p as i64 - 1
            }
        },
        (Scaling::Decimal(_), Rounding::Magnitude(p)) => {
            if found {
                3 * div_floor(mag10, 3) - *p as i64
            } else {
                mag10
            }
        },
        (Scaling::Decimal(_), Rounding::SignificantDigits(p)) => {
            if found {
                -mod_floor(mag10, 3) + *p as i64 - 1
            } else {
                *p as i64 - 1
            }
        },
        (Scaling::NoScaling, Rounding::Magnitude(p)) => -(*p as i64),
        (Scaling::NoScaling, Rounding::SignificantDigits(p)) => -mag10 + *p as i64 - 1,
        (Scaling::Scientific, Rounding::Magnitude(_)) => mag10,
        (Scaling::Scientific, Rounding::SignificantDigits(p)) => *p as i64 - 1,
    };
    if d < 0 {
        0
    } else {
        d
    }
}

} // verus!
