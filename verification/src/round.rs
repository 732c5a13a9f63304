//! Rounding a number to a magnitude or to a count of significant digits.

use vstd::prelude::*;

use crate::digits::digits_norm;
use crate::digits::val;
use crate::number::Dec;
use crate::number::spec_round_exp;
use crate::number::spec_round_mant;

verus! {

/// Whether `r` is the value `m * 10^e` with sign `neg` rounded half-to-even
/// at magnitude `g`.
pub open spec fn is_rounded_at(m: nat, e: int, neg: bool, g: int, r: Dec) -> bool {
    &&& digits_norm(r.digits@)
    &&& val(r.digits@) == spec_round_mant(m, e, g)
    &&& r.exponent as int == spec_round_exp(m, e, g)
    &&& r.negative == (m != 0 && neg)
}

/// Whether `r` is the canonical zero: no digits, exponent zero, positive.
pub open spec fn is_canonical_zero(r: Dec) -> bool {
    &&& r.digits@.len() == 0
    &&& r.exponent == 0
    &&& r.negative == false
}

/// Rounding a number to a specific magnitude or to a number of significant
/// digits.
pub trait Round: Sized {
    /// The inputs on which the rounding operations are defined.
    spec fn round_input_ok(&self) -> bool;

    /// What `round_mag` returns.
    spec fn is_round_mag(&self, magnitude: i16, r: Self) -> bool;

    /// What `round_sig` returns.
    spec fn is_round_sig(&self, significants: u8, r: Self) -> bool;

    /// Rounds half-to-even to the digit at magnitude `10^magnitude`: to whole
    /// numbers at magnitude 0, to tens at 1, to tenths at -1. Zero always
    /// rounds to zero.
    fn round_mag(&self, magnitude: i16) -> (r: Self)
        requires
            self.round_input_ok(),
        ensures
            self.is_round_mag(magnitude, r),
    ;

    /// Rounds half-to-even to `significants` significant digits, irrespective
    /// of the magnitude. Zero significant digits always yields zero, as does
    /// a zero input.
    fn round_sig(&self, significants: u8) -> (r: Self)
        requires
            self.round_input_ok(),
        ensures
            self.is_round_sig(significants, r),
    ;
}

impl Round for Dec {
    open spec fn round_input_ok(&self) -> bool {
        self.wf()
    }

    open spec fn is_round_mag(&self, magnitude: i16, r: Self) -> bool {
        &&& is_rounded_at(val(self.digits@), self.exponent as int, self.negative, magnitude as int, r)
        &&& r.digits@.len() <= self.digits@.len() + 1
        &&& -0x20000000 <= r.exponent <= 0x20000000
    }

    open spec fn is_round_sig(&self, significants: u8, r: Self) -> bool {
        if val(self.digits@) == 0 || significants == 0 {
            is_canonical_zero(r) && digits_norm(r.digits@)
        } else {
            let g = self.digits@.len() - 1 + self.exponent - significants + 1;
            &&& is_rounded_at(val(self.digits@), self.exponent as int, self.negative, g, r)
            &&& r.digits@.len() <= significants + 1
            &&& -0x20000000 <= r.exponent <= 0x20000000
        }
    }

    fn round_mag(&self, magnitude: i16) -> (r: Self) {
        self.round_at(magnitude as i64)
    }

    fn round_sig(&self, significants: u8) -> (r: Self) {
        if self.digits.len() == 0 || significants == 0 {
            proof {
                if self.digits@.len() == 0 {
                    assert(val(self.digits@) == 0);
                }
            }
            return Dec { negative: false, digits: Vec::new(), exponent: 0 };
        }
        proof {
            crate::digits::lemma_val_norm_lower(self.digits@);
            crate::digits::lemma_npow_pos(10, (self.digits@.len() - 1) as nat);
        }
        let g: i64 = self.digits.len() as i64 - 1 + self.exponent - significants as i64 + 1;
        let r = self.round_at(g);
        proof {
            // the kept mantissa spans at most `significants` digits, plus one
            // more when rounding up overflows into a new leading digit
            let s = self.digits@;
            let e = self.exponent as int;
            if g > e {
                let t = (g - e) as nat;
                assert(r.digits@.len() <= significants + 1) by {
                    assert(s.len() - t == significants);
                    if r.digits@.len() > significants + 1 {
                        crate::digits::lemma_val_norm_lower(r.digits@);
                        crate::digits::lemma_val_split(s, t as int);
                        crate::digits::lemma_val_bound(s);
                        crate::digits::lemma_val_bound(s.take(t as int));
                        crate::digits::lemma_npow_pos(10, t);
                        vstd::arithmetic::div_mod::lemma_fundamental_div_mod_converse(
                            val(s) as int,
                            crate::digits::pow10(t) as int,
                            val(s.skip(t as int)) as int,
                            val(s.take(t as int)) as int,
                        );
                        assert(val(s) / crate::digits::pow10(t) == val(s.skip(t as int)));
                        assert(val(s) % crate::digits::pow10(t) == val(s.take(t as int)));
                        assert(val(s.skip(t as int)) < crate::digits::pow10((s.len() - t) as nat))
                            by {
                            crate::digits::lemma_val_bound(s.skip(t as int));
                        }
                        assert(val(r.digits@) <= val(s.skip(t as int)) + 1);
                        assert(crate::digits::pow10((r.digits@.len() - 1) as nat) <= val(
                            r.digits@,
                        ));
                        crate::digits::lemma_npow_increases(
                            10,
                            (significants + 1) as nat,
                            (r.digits@.len() - 1) as nat,
                        );
                        crate::digits::lemma_npow_pos(10, significants as nat);
                        crate::digits::lemma_pow10_succ(significants as nat);
                        assert(false);
                    }
                }
            } else {
                // g <= e only when significants exceeds the digit count
                assert(s.len() <= significants);
                assert(r.digits@.len() <= significants + 1);
            }
        }
        r
    }
}

} // verus!
