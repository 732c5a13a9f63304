//! The numbers that the formatter renders.
//!
//! A finite value is kept exactly as a signed decimal: a mantissa of decimal
//! digits and a power-of-ten exponent. Alongside the finite values stand the
//! three special values: the two infinities and not-a-number.

use vstd::prelude::*;

use crate::digits::add_one;
use crate::digits::all_zero_below;
use crate::digits::digits_norm;
use crate::digits::digits_wf;
use crate::digits::high_part;
use crate::digits::lemma_npow_pos;
use crate::digits::lemma_npow_increases;
use crate::digits::lemma_pow10_le_npow2;
use crate::digits::lemma_pow10_succ;
use crate::digits::lemma_pow10_zero;
use crate::digits::lemma_val_bound;
use crate::digits::lemma_val_norm_lower;
use crate::digits::lemma_val_push;
use crate::digits::lemma_val_singleton;
use crate::digits::lemma_val_split;
use crate::digits::lemma_val_take_succ;
use crate::digits::npow;
use crate::digits::pow10;
use crate::digits::val;

verus! {

/// A finite decimal number: `(-1)^negative * val(digits) * 10^exponent`.
///
/// The digits are little-endian: entry `i` is worth `10^i`. An empty digit
/// vector is zero (a zero with `negative` set renders with a minus sign, like
/// the negative zero of a float).
#[derive(Debug)]
pub struct Dec {
    pub negative: bool,
    pub digits: Vec<u8>,
    pub exponent: i64,
}

/// A value handed to the formatter: finite, infinite, or not a number.
#[derive(Debug)]
pub enum Number {
    NaN,
    PositiveInfinity,
    NegativeInfinity,
    Finite(Dec),
}

impl Dec {
    /// The well-formedness every constructed `Dec` has: normalized digits and
    /// sizes small enough for all derived quantities to fit the machine.
    pub open spec fn wf(self) -> bool {
        &&& digits_norm(self.digits@)
        &&& self.digits@.len() <= 0x100000
        &&& -0x100000 <= self.exponent <= 0x100000
    }
}

impl Number {
    /// Well-formed: a finite payload must itself be well-formed.
    pub open spec fn wf(self) -> bool {
        match self {
            Number::Finite(d) => d.wf(),
            _ => true,
        }
    }
}

/// 10^20 exceeds every u64: a u64 mantissa has at most 20 digits.
pub proof fn lemma_pow10_20_exceeds_u64()
    ensures
        pow10(20) > 0xFFFFFFFFFFFFFFFF,
{
    assert(npow(10, 0) == 1);
    assert(npow(10, 1) == 10);
    assert(npow(10, 2) == 100);
    assert(npow(10, 3) == 1000);
    assert(npow(10, 4) == 10000);
    assert(npow(10, 5) == 100000);
    assert(npow(10, 6) == 1000000);
    assert(npow(10, 7) == 10000000);
    assert(npow(10, 8) == 100000000);
    assert(npow(10, 9) == 1000000000);
    assert(npow(10, 10) == 10000000000);
    assert(npow(10, 11) == 100000000000);
    assert(npow(10, 12) == 1000000000000);
    assert(npow(10, 13) == 10000000000000);
    assert(npow(10, 14) == 100000000000000);
    assert(npow(10, 15) == 1000000000000000);
    assert(npow(10, 16) == 10000000000000000);
    assert(npow(10, 17) == 100000000000000000);
    assert(npow(10, 18) == 1000000000000000000);
    assert(npow(10, 19) == 10000000000000000000);
    assert(npow(10, 20) == 100000000000000000000);
}

/// The count of decimal digits of `n`; zero has none.
pub open spec fn nlen(n: nat) -> nat
    decreases n,
{
    if n == 0 {
        0
    } else {
        1 + nlen(n / 10)
    }
}

/// A normalized digit vector has as many digits as its value.
pub proof fn lemma_nlen_norm(s: Seq<u8>)
    requires
        digits_norm(s),
    ensures
        nlen(val(s)) == s.len(),
    decreases s.len(),
{
    if s.len() == 0 {
    } else if s.len() == 1 {
        lemma_val_singleton(s);
        assert(s[0] >= 1);
        assert(val(s) / 10 == 0);
        assert(nlen(val(s)) == 1 + nlen(0));
    } else {
        assert(s.skip(1).len() == s.len() - 1);
        assert(s.skip(1)[s.len() - 2] == s[s.len() - 1]);
        assert(digits_norm(s.skip(1)));
        lemma_nlen_norm(s.skip(1));
        lemma_val_norm_lower(s.skip(1));
        lemma_npow_pos(10, (s.len() - 2) as nat);
        assert(val(s) == s[0] as nat + 10 * val(s.skip(1)));
        assert(val(s) / 10 == val(s.skip(1)) && val(s) != 0) by (nonlinear_arith)
            requires
                val(s) == s[0] as nat + 10 * val(s.skip(1)),
                0 <= s[0] < 10,
                val(s.skip(1)) >= 1,
        ;
        assert(nlen(val(s)) == 1 + nlen(val(s) / 10));
    }
}

/// Round-half-to-even of `m / 10^t`, for `t >= 1`.
pub open spec fn half_even_div(m: nat, t: nat) -> nat
    recommends
        t >= 1,
{
    let q = m / pow10(t);
    let r = m % pow10(t);
    let h = 5 * pow10((t - 1) as nat);
    if r > h || (r == h && q % 2 == 1) {
        q + 1
    } else {
        q
    }
}

/// The mantissa of `(m, e)` rounded half-to-even at magnitude `g`: zero stays
/// zero, a magnitude at or below the exponent changes nothing, and otherwise
/// the digits below `10^g` are rounded away.
pub open spec fn spec_round_mant(m: nat, e: int, g: int) -> nat {
    if m == 0 {
        0
    } else if g <= e {
        m
    } else {
        half_even_div(m, (g - e) as nat)
    }
}

/// The exponent that goes with [`spec_round_mant`].
pub open spec fn spec_round_exp(m: nat, e: int, g: int) -> int {
    if m == 0 {
        0
    } else if g <= e {
        e
    } else {
        g
    }
}

/// Whether `2^k <= m * 10^e`, written over naturals (for `m >= 1`).
pub open spec fn ge_pow2(m: nat, e: int, k: int) -> bool {
    if e >= 0 {
        if k >= 0 {
            m * pow10(e as nat) >= npow(2, k as nat)
        } else {
            m >= 1
        }
    } else {
        if k >= 0 {
            m >= npow(2, k as nat) * pow10((-e) as nat)
        } else {
            m * npow(2, (-k) as nat) >= pow10((-e) as nat)
        }
    }
}

/// Whether `k` is the floor of the base-2 logarithm of `m * 10^e`.
pub open spec fn is_mag2(m: nat, e: int, k: int) -> bool {
    ge_pow2(m, e, k) && !ge_pow2(m, e, k + 1)
}

/// The floor of the base-2 logarithm of `m * 10^e`.
pub open spec fn spec_mag2(m: nat, e: int) -> int {
    choose|k: int| is_mag2(m, e, k)
}

/// `ge_pow2` is downward closed in `k`: a value at least `2^k2` is at least
/// every smaller power of two.
pub proof fn lemma_ge_pow2_mono(m: nat, e: int, k1: int, k2: int)
    requires
        m >= 1,
        k1 <= k2,
        ge_pow2(m, e, k2),
    ensures
        ge_pow2(m, e, k1),
{
    if e >= 0 {
        let p = pow10(e as nat);
        lemma_npow_pos(10, e as nat);
        if k1 >= 0 {
            lemma_npow_increases(2, k1 as nat, k2 as nat);
            assert(m * p >= m * 1) by (nonlinear_arith)
                requires
                    m >= 1,
                    p >= 1,
            ;
        }
    } else {
        let p = pow10((-e) as nat);
        lemma_npow_pos(10, (-e) as nat);
        if k2 >= 0 {
            lemma_npow_pos(2, k2 as nat);
            assert(npow(2, k2 as nat) * p >= 1 * p) by (nonlinear_arith)
                requires
                    npow(2, k2 as nat) >= 1,
                    p >= 0,
            ;
            if k1 >= 0 {
                lemma_npow_increases(2, k1 as nat, k2 as nat);
                assert(npow(2, k1 as nat) * p <= npow(2, k2 as nat) * p) by (nonlinear_arith)
                    requires
                        npow(2, k1 as nat) <= npow(2, k2 as nat),
                        p >= 0,
                ;
            } else {
                lemma_npow_pos(2, (-k1) as nat);
                assert(m * npow(2, (-k1) as nat) >= m * 1) by (nonlinear_arith)
                    requires
                        npow(2, (-k1) as nat) >= 1,
                        m >= 0,
                ;
            }
        } else {
            // both negative: m * 2^(-k1) >= m * 2^(-k2) >= 10^(-e)
            lemma_npow_increases(2, (-k2) as nat, (-k1) as nat);
            assert(m * npow(2, (-k1) as nat) >= m * npow(2, (-k2) as nat)) by (nonlinear_arith)
                requires
                    npow(2, (-k1) as nat) >= npow(2, (-k2) as nat),
                    m >= 0,
            ;
        }
    }
}

/// The floor of the base-2 logarithm is unique.
pub proof fn lemma_mag2_unique(m: nat, e: int, k1: int, k2: int)
    requires
        m >= 1,
        is_mag2(m, e, k1),
        is_mag2(m, e, k2),
    ensures
        k1 == k2,
{
    if k1 < k2 {
        lemma_ge_pow2_mono(m, e, k1 + 1, k2);
        assert(false);
    }
    if k2 < k1 {
        lemma_ge_pow2_mono(m, e, k2 + 1, k1);
        assert(false);
    }
}

/// What `spec_mag2` picks is the witness shown.
pub proof fn lemma_spec_mag2_is(m: nat, e: int, k: int)
    requires
        m >= 1,
        is_mag2(m, e, k),
    ensures
        spec_mag2(m, e) == k,
{
    assert(is_mag2(m, e, spec_mag2(m, e))) by {
        assert(exists|j: int| is_mag2(m, e, j)) by {
            assert(is_mag2(m, e, k));
        }
    }
    lemma_mag2_unique(m, e, spec_mag2(m, e), k);
}

/// Doubles a digit vector.
fn double(v: &Vec<u8>) -> (r: Vec<u8>)
    requires
        digits_norm(v@),
    ensures
        digits_norm(r@),
        val(r@) == 2 * val(v@),
        r@.len() <= v@.len() + 1,
{
    let mut r = crate::digits::mul_small(v, 2);
    crate::digits::normalize(&mut r);
    r
}

/// A digit vector holding 10^t.
fn pow10_digits(t: usize) -> (r: Vec<u8>)
    requires
        t <= 0x1000000,
    ensures
        digits_norm(r@),
        val(r@) == pow10(t as nat),
        r@.len() == t + 1,
{
    let mut one: Vec<u8> = Vec::new();
    proof {
        lemma_val_push(one@, 1);
        lemma_pow10_zero();
    }
    one.push(1);
    proof {
        assert(val(one@) == 1);
    }
    let r = crate::digits::shift_up(&one, t);
    proof {
        assert(1 * pow10(t as nat) == pow10(t as nat)) by (nonlinear_arith);
    }
    r
}

/// The floor of the base-2 logarithm of the positive value `val(digits) * 10^exponent`,
/// found by exact doubling and comparison.
pub fn mag2_floor(digits: &Vec<u8>, exponent: i64) -> (k: i64)
    requires
        digits_norm(digits@),
        1 <= digits@.len() <= 0x400000,
        -0x600000 <= exponent <= 0x600000,
    ensures
        is_mag2(val(digits@), exponent as int, k as int),
        -0x1800000 <= k <= 0x2800000,
{
    let ghost m = val(digits@);
    proof {
        lemma_val_norm_lower(digits@);
        lemma_npow_pos(10, (digits@.len() - 1) as nat);
    }
    if exponent >= 0 {
        let v = crate::digits::shift_up(digits, exponent as usize);
        let ghost vv = val(v@);
        let mut p = pow10_digits(0);
        let mut k: i64 = 0;
        let mut p2 = double(&p);
        proof {
            assert(npow(2, 0) == 1);
            lemma_val_norm_lower(v@);
            lemma_npow_pos(10, (v@.len() - 1) as nat);
            assert(vv >= 1);
            lemma_val_bound(v@);
            lemma_pow10_le_npow2(v@.len() as nat);
        }
        let ghost nv = v@.len() as nat;
        while crate::digits::cmp_le(&p2, &v)
            invariant
                digits_norm(p@),
                digits_norm(p2@),
                digits_norm(v@),
                vv == val(v@),
                vv == m * pow10(exponent as nat),
                vv < npow(2, 4 * nv),
                nv == v@.len() as nat,
                val(p@) == npow(2, k as nat),
                val(p2@) == 2 * val(p@),
                val(p@) <= vv,
                0 <= k,
                k <= 4 * nv,
                nv <= 0xa00000,
            decreases vv - val(p@),
        {
            p = p2;
            k = k + 1;
            p2 = double(&p);
            proof {
                assert(npow(2, k as nat) == 2 * npow(2, (k - 1) as nat));
                if k > 4 * nv {
                    lemma_npow_increases(2, 4 * nv, k as nat);
                    assert(false);
                }
                lemma_npow_pos(2, k as nat);
            }
        }
        proof {
            assert(val(p2@) == npow(2, (k + 1) as nat));
            assert(ge_pow2(m, exponent as int, k as int));
            assert(!ge_pow2(m, exponent as int, k + 1));
        }
        k
    } else {
        let eneg: usize = (-exponent) as usize;
        let b = pow10_digits(eneg);
        let ghost bp = pow10(eneg as nat);
        proof {
            lemma_npow_pos(10, eneg as nat);
            lemma_val_bound(digits@);
            lemma_pow10_le_npow2(digits@.len() as nat);
            lemma_pow10_le_npow2(eneg as nat);
        }
        if crate::digits::cmp_le(&b, digits) {
            // the value is at least one: double 10^(-exponent) against the mantissa
            let ghost nd = digits@.len() as nat;
            let mut p = b;
            let mut k: i64 = 0;
            let mut p2 = double(&p);
            proof {
                assert(npow(2, 0) == 1);
                assert(1 * bp == bp) by (nonlinear_arith);
            }
            while crate::digits::cmp_le(&p2, digits)
                invariant
                    digits_norm(p@),
                    digits_norm(p2@),
                    digits_norm(digits@),
                    m == val(digits@),
                    m < npow(2, 4 * nd),
                    nd == digits@.len() as nat,
                    bp == pow10(eneg as nat),
                    val(p@) == npow(2, k as nat) * bp,
                    val(p2@) == 2 * val(p@),
                    val(p@) <= m,
                    0 <= k,
                    k <= 4 * nd,
                    nd <= 0x400000,
                decreases m - val(p@),
            {
                p = p2;
                k = k + 1;
                p2 = double(&p);
                proof {
                    assert(npow(2, k as nat) == 2 * npow(2, (k - 1) as nat));
                    assert(2 * (npow(2, (k - 1) as nat) * bp) == npow(2, k as nat) * bp)
                        by (nonlinear_arith)
                        requires
                            npow(2, k as nat) == 2 * npow(2, (k - 1) as nat),
                    ;
                    if k > 4 * nd {
                        lemma_npow_increases(2, 4 * nd, k as nat);
                        lemma_npow_pos(10, eneg as nat);
                        assert(npow(2, k as nat) * bp >= npow(2, k as nat) * 1)
                            by (nonlinear_arith)
                            requires
                                bp >= 1,
                                npow(2, k as nat) >= 0,
                        ;
                        assert(false);
                    }
                    lemma_npow_pos(2, k as nat);
                    lemma_npow_pos(10, eneg as nat);
                    assert(npow(2, k as nat) * bp >= 1) by (nonlinear_arith)
                        requires
                            npow(2, k as nat) >= 1,
                            bp >= 1,
                    ;
                }
            }
            proof {
                assert(npow(2, (k + 1) as nat) == 2 * npow(2, k as nat));
                assert(val(p2@) == npow(2, (k + 1) as nat) * bp) by (nonlinear_arith)
                    requires
                        val(p2@) == 2 * (npow(2, k as nat) * bp),
                        npow(2, (k + 1) as nat) == 2 * npow(2, k as nat),
                ;
                assert(ge_pow2(m, exponent as int, k as int));
                assert(!ge_pow2(m, exponent as int, k + 1));
            }
            k
        } else {
            // the value is below one: double the mantissa up to 10^(-exponent)
            let ghost nd = digits@.len() as nat;
            let mut q = digits.clone();
            let mut j: i64 = 0;
            proof {
                assert(npow(2, 0) == 1);
                assert(1 * m == m) by (nonlinear_arith);
                assert(bp <= npow(2, 4 * eneg as nat));
            }
            while !crate::digits::cmp_le(&b, &q)
                invariant
                    digits_norm(q@),
                    digits_norm(b@),
                    m == val(digits@),
                    m >= 1,
                    bp == val(b@),
                    bp == pow10(eneg as nat),
                    bp <= npow(2, 4 * eneg as nat),
                    val(q@) == npow(2, j as nat) * m,
                    0 <= j,
                    j > 0 ==> npow(2, (j - 1) as nat) * m < bp,
                    j <= 4 * eneg,
                    eneg <= 0x600000,
                decreases 4 * eneg - j + 1,
            {
                proof {
                    lemma_npow_pos(2, j as nat);
                    assert(val(q@) >= 1) by (nonlinear_arith)
                        requires
                            val(q@) == npow(2, j as nat) * m,
                            npow(2, j as nat) >= 1,
                            m >= 1,
                    ;
                }
                q = double(&q);
                j = j + 1;
                proof {
                    assert(npow(2, j as nat) == 2 * npow(2, (j - 1) as nat));
                    assert(2 * (npow(2, (j - 1) as nat) * m) == npow(2, j as nat) * m)
                        by (nonlinear_arith)
                        requires
                            npow(2, j as nat) == 2 * npow(2, (j - 1) as nat),
                    ;
                    if j > 4 * eneg {
                        lemma_npow_increases(2, 4 * eneg as nat, (j - 1) as nat);
                        assert(npow(2, (j - 1) as nat) * m >= npow(2, (j - 1) as nat))
                            by (nonlinear_arith)
                            requires
                                m >= 1,
                                npow(2, (j - 1) as nat) >= 0,
                        ;
                        assert(false);
                    }
                }
            }
            proof {
                assert(j >= 1);
                assert(val(q@) >= bp);
                assert(m * npow(2, j as nat) == npow(2, j as nat) * m) by (nonlinear_arith);
                assert(ge_pow2(m, exponent as int, -j));
                let kk = -j + 1;
                if kk >= 0 {
                    assert(j == 1);
                    assert(npow(2, 0) == 1);
                    assert(1 * m == m) by (nonlinear_arith);
                    assert(m < bp);
                    assert(npow(2, kk as nat) * bp == bp) by (nonlinear_arith)
                        requires
                            npow(2, kk as nat) == 1,
                    ;
                    assert(!ge_pow2(m, exponent as int, kk));
                } else {
                    assert((-kk) as nat == (j - 1) as nat);
                    assert(m * npow(2, (j - 1) as nat) == npow(2, (j - 1) as nat) * m)
                        by (nonlinear_arith);
                    assert(!ge_pow2(m, exponent as int, kk));
                }
            }
            -j
        }
    }
}

impl Dec {
    /// Builds a finite decimal from a machine-sized mantissa.
    ///
    /// The exponent bound keeps every quantity derived while formatting well
    /// inside the machine's integer range.
    pub fn from_parts(negative: bool, mantissa: u64, exponent: i32) -> (r: Dec)
        requires
            -0x100000 <= exponent <= 0x100000,
        ensures
            r.wf(),
            r.negative == negative,
            val(r.digits@) == mantissa,
            r.exponent == exponent,
            r.digits@.len() <= 20,
    {
        let mut ds: Vec<u8> = Vec::new();
        let mut m: u64 = mantissa;
        proof {
            lemma_pow10_zero();
            assert(m as nat * pow10(0) == m as nat) by (nonlinear_arith)
                requires
                    pow10(0) == 1,
            ;
            lemma_pow10_20_exceeds_u64();
        }
        while m != 0
            invariant
                digits_wf(ds@),
                m == 0 ==> digits_norm(ds@),
                val(ds@) + m as nat * pow10(ds@.len() as nat) == mantissa,
                ds@.len() <= 20,
                pow10(20) > u64::MAX,
                m > 0 ==> pow10(ds@.len() as nat) <= mantissa,
            decreases m,
        {
            let d: u8 = (m % 10) as u8;
            let ghost pre = ds@;
            let ghost mpre = m as nat;
            let ghost p = pow10(ds@.len() as nat);
            ds.push(d);
            m = m / 10;
            proof {
                lemma_val_push(pre, d);
                lemma_pow10_succ(pre.len());
                assert(mpre % 10 + 10 * (mpre / 10) == mpre);
                assert(val(pre) + (mpre % 10) * p + (mpre / 10) * (10 * p) == val(pre) + mpre * p)
                    by (nonlinear_arith)
                    requires
                        mpre % 10 + 10 * (mpre / 10) == mpre,
                ;
                if m > 0 {
                    lemma_npow_pos(10, pre.len());
                    assert(mpre >= 10);
                    assert(pow10(pre.len() + 1) <= mpre * p) by (nonlinear_arith)
                        requires
                            pow10(pre.len() + 1) == 10 * p,
                            mpre >= 10,
                            p >= 1,
                    ;
                }
                if ds@.len() > 20 {
                    lemma_npow_increases(10, 21, ds@.len() as nat);
                    assert(false);
                }
            }
        }
        proof {
            assert(m as nat * pow10(ds@.len() as nat) == 0) by (nonlinear_arith)
                requires
                    m as nat == 0,
            ;
        }
        Dec { negative, digits: ds, exponent: exponent as i64 }
    }

    /// Rounds half-to-even at magnitude `g`: the result's value is the
    /// nearest multiple of `10^g` (ties to the even multiple). A zero value
    /// always rounds to the canonical positive zero.
    pub fn round_at(&self, g: i64) -> (r: Dec)
        requires
            digits_norm(self.digits@),
            self.digits@.len() <= 0x10000000,
            -0x10000000 <= self.exponent <= 0x10000000,
            -0x20000000 <= g <= 0x20000000,
        ensures
            digits_norm(r.digits@),
            r.digits@.len() <= self.digits@.len() + 1,
            val(r.digits@) == spec_round_mant(val(self.digits@), self.exponent as int, g as int),
            r.exponent as int == spec_round_exp(val(self.digits@), self.exponent as int, g as int),
            r.negative == (val(self.digits@) != 0 && self.negative),
            -0x20000000 <= r.exponent <= 0x20000000,
    {
        let n = self.digits.len();
        if n == 0 {
            return Dec { negative: false, digits: Vec::new(), exponent: 0 };
        }
        proof {
            lemma_val_norm_lower(self.digits@);
            lemma_npow_pos(10, (n - 1) as nat);
        }
        if g <= self.exponent {
            return Dec {
                negative: self.negative,
                digits: self.digits.clone(),
                exponent: self.exponent,
            };
        }
        let t64: i64 = g - self.exponent;
        let ghost m = val(self.digits@);
        let ghost tn = t64 as nat;
        if t64 > n as i64 {
            // all digits fall away and the highest dropped digit position is
            // zero: the value rounds to zero
            proof {
                lemma_val_bound(self.digits@);
                lemma_npow_increases(10, n as nat, (tn - 1) as nat);
                let pt = pow10(tn);
                let ph = pow10((tn - 1) as nat);
                lemma_pow10_succ((tn - 1) as nat);
                lemma_npow_pos(10, (tn - 1) as nat);
                assert(m < ph);
                assert(m < pt) by (nonlinear_arith)
                    requires
                        m < ph,
                        pt == 10 * ph,
                        ph >= 1,
                ;
                assert(m / pt == 0) by (nonlinear_arith)
                    requires
                        0 <= m < pt,
                ;
                assert(m % pt == m) by (nonlinear_arith)
                    requires
                        0 <= m < pt,
                ;
                assert(m < 5 * ph) by (nonlinear_arith)
                    requires
                        m < ph,
                        ph >= 1,
                ;
                assert(half_even_div(m, tn) == 0);
            }
            return Dec { negative: self.negative, digits: Vec::new(), exponent: g };
        }
        let t: usize = t64 as usize;
        let ghost s = self.digits@;
        let mut q = high_part(&self.digits, t);
        proof {
            assert(s.skip(t as int).len() == n - t);
            if t < n {
                assert(q@[q@.len() - 1] == s[n - 1]);
            }
            assert(digits_norm(q@));
            lemma_val_split(s, t as int);
            lemma_val_bound(s.take(t as int));
            let pt = pow10(tn);
            let lo = val(s.take(t as int));
            let hi = val(s.skip(t as int));
            assert(m == lo + pt * hi);
            assert(m / pt == hi && m % pt == lo) by (nonlinear_arith)
                requires
                    m == lo + pt * hi,
                    0 <= lo < pt,
                    pt >= 1,
            ;
        }
        let top = self.digits[t - 1];
        let rest_zero = all_zero_below(&self.digits, t - 1);
        proof {
            lemma_val_take_succ(s, t as int - 1);
            assert(s.take(t as int).take(t as int - 1) =~= s.take(t as int - 1));
            let lo = val(s.take(t as int));
            let lo1 = val(s.take(t as int - 1));
            let ph = pow10((tn - 1) as nat);
            assert(lo == lo1 + top * ph);
            lemma_val_bound(s.take(t as int - 1));
            lemma_npow_pos(10, (tn - 1) as nat);
            assert(lo1 < ph);
            // how the low part compares against half of 10^t
            if top > 5 {
                assert(lo > 5 * ph) by (nonlinear_arith)
                    requires
                        lo == lo1 + top * ph,
                        top >= 6,
                        ph >= 1,
                        lo1 >= 0,
                ;
            }
            if top < 5 {
                assert(lo < 5 * ph) by (nonlinear_arith)
                    requires
                        lo == lo1 + top * ph,
                        top <= 4,
                        ph >= 1,
                        lo1 < ph,
                ;
            }
            if top == 5 {
                assert(lo == 5 * ph + lo1) by (nonlinear_arith)
                    requires
                        lo == lo1 + top * ph,
                        top == 5,
                ;
            }
        }
        let round_up: bool = if top > 5 {
            true
        } else if top < 5 {
            false
        } else if !rest_zero {
            true
        } else {
            // exact tie: round up only when the kept part is odd
            let qlow: u8 = if t < n {
                self.digits[t]
            } else {
                0
            };
            proof {
                let hi = val(s.skip(t as int));
                if t < n {
                    assert(s.skip(t as int)[0] == s[t as int]);
                    assert(hi == qlow as nat + 10 * val(s.skip(t as int).skip(1)));
                    assert(hi % 2 == qlow % 2) by (nonlinear_arith)
                        requires
                            hi == qlow as nat + 10 * val(s.skip(t as int).skip(1)),
                    ;
                } else {
                    assert(s.skip(t as int).len() == 0);
                    assert(hi == 0);
                }
            }
            qlow % 2 == 1
        };
        if round_up {
            add_one(&mut q);
        }
        proof {
            assert(val(q@) == half_even_div(m, tn));
        }
        Dec { negative: self.negative, digits: q, exponent: g }
    }
}

} // verus!
