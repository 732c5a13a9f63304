//! Exact arithmetic on decimal digit vectors.
//!
//! A number's mantissa is kept as a little-endian vector of decimal digits:
//! entry `i` is the digit worth `10^i`. The empty vector is zero. A vector is
//! normalized when its most significant digit (the last entry) is nonzero.

use vstd::prelude::*;

verus! {

/// `b` to the power of `e`.
pub open spec fn npow(b: nat, e: nat) -> nat
    decreases e,
{
    if e == 0 {
        1
    } else {
        b * npow(b, (e - 1) as nat)
    }
}

/// `10` to the power of `e`.
pub open spec fn pow10(e: nat) -> nat {
    npow(10, e)
}

/// The value of a little-endian digit vector.
pub open spec fn val(s: Seq<u8>) -> nat
    decreases s.len(),
{
    if s.len() == 0 {
        0
    } else {
        s[0] as nat + 10 * val(s.skip(1))
    }
}

/// Every entry is a decimal digit.
pub open spec fn digits_wf(s: Seq<u8>) -> bool {
    forall|i: int| 0 <= i < s.len() ==> s[i] < 10
}

/// A well-formed vector without a leading (most significant) zero digit.
pub open spec fn digits_norm(s: Seq<u8>) -> bool {
    digits_wf(s) && (s.len() == 0 || s[s.len() - 1] != 0)
}

pub proof fn lemma_npow_pos(b: nat, e: nat)
    requires
        b >= 1,
    ensures
        npow(b, e) >= 1,
    decreases e,
{
    if e > 0 {
        lemma_npow_pos(b, (e - 1) as nat);
        assert(npow(b, e) == b * npow(b, (e - 1) as nat));
        assert(b * npow(b, (e - 1) as nat) >= 1) by (nonlinear_arith)
            requires
                b >= 1,
                npow(b, (e - 1) as nat) >= 1,
        ;
    } else {
        assert(npow(b, 0) == 1);
    }
}

pub proof fn lemma_npow_adds(b: nat, e1: nat, e2: nat)
    ensures
        npow(b, e1 + e2) == npow(b, e1) * npow(b, e2),
    decreases e1,
{
    if e1 == 0 {
        assert(npow(b, 0) == 1);
        assert(npow(b, 0 + e2) == 1 * npow(b, e2));
    } else {
        lemma_npow_adds(b, (e1 - 1) as nat, e2);
        assert(npow(b, e1 + e2) == b * npow(b, (e1 + e2 - 1) as nat));
        assert(npow(b, e1) == b * npow(b, (e1 - 1) as nat));
        let m = npow(b, (e1 - 1) as nat);
        let q = npow(b, e2);
        assert(b * (m * q) == (b * m) * q) by (nonlinear_arith);
    }
}

pub proof fn lemma_npow_increases(b: nat, e1: nat, e2: nat)
    requires
        b >= 1,
        e1 <= e2,
    ensures
        npow(b, e1) <= npow(b, e2),
    decreases e2 - e1,
{
    if e1 < e2 {
        lemma_npow_increases(b, e1, (e2 - 1) as nat);
        lemma_npow_pos(b, (e2 - 1) as nat);
        assert(npow(b, e2) == b * npow(b, (e2 - 1) as nat));
        assert(b * npow(b, (e2 - 1) as nat) >= 1 * npow(b, (e2 - 1) as nat)) by (nonlinear_arith)
            requires b >= 1, npow(b, (e2 - 1) as nat) >= 1;
    }
}

/// 10^n is at most 2^(4n): needed to bound binary magnitudes by digit counts.
pub proof fn lemma_pow10_le_npow2(n: nat)
    ensures
        pow10(n) <= npow(2, 4 * n),
    decreases n,
{
    if n > 0 {
        lemma_pow10_le_npow2((n - 1) as nat);
        let p = pow10((n - 1) as nat);
        let q = npow(2, (4 * n - 4) as nat);
        assert(npow(2, 4 * n) == 2 * npow(2, (4 * n - 1) as nat));
        assert(npow(2, (4 * n - 1) as nat) == 2 * npow(2, (4 * n - 2) as nat));
        assert(npow(2, (4 * n - 2) as nat) == 2 * npow(2, (4 * n - 3) as nat));
        assert(npow(2, (4 * n - 3) as nat) == 2 * npow(2, (4 * n - 4) as nat));
        assert(pow10(n) == 10 * p);
        assert(10 * p <= 16 * q) by (nonlinear_arith)
            requires p <= q, p >= 0;
    }
}

/// 10^(e+1) is ten times 10^e.
pub proof fn lemma_pow10_succ(e: nat)
    ensures
        pow10(e + 1) == 10 * pow10(e),
{
    assert(npow(10, e + 1) == 10 * npow(10, e));
}

/// 10^0 is one.
pub proof fn lemma_pow10_zero()
    ensures
        pow10(0) == 1,
{
    assert(npow(10, 0) == 1);
}

/// The value of a one-digit vector is its digit.
pub proof fn lemma_val_singleton(s: Seq<u8>)
    requires
        s.len() == 1,
    ensures
        val(s) == s[0] as nat,
{
    assert(s.skip(1) =~= Seq::<u8>::empty());
    assert(val(s.skip(1)) == 0);
    assert(val(s) == s[0] as nat + 10 * val(s.skip(1)));
}

/// Appending a most significant digit adds its weighted value.
pub proof fn lemma_val_push(s: Seq<u8>, d: u8)
    ensures
        val(s.push(d)) == val(s) + d * pow10(s.len() as nat),
    decreases s.len(),
{
    if s.len() == 0 {
        lemma_val_singleton(s.push(d));
        assert(s.push(d)[0] == d);
        assert(val(s) == 0);
        assert(pow10(0) == 1) by {
            assert(npow(10, 0) == 1);
        }
    } else {
        assert(s.push(d).skip(1) =~= s.skip(1).push(d));
        lemma_val_push(s.skip(1), d);
        assert(val(s.push(d)) == s[0] as nat + 10 * (val(s.skip(1)) + d * pow10(
            (s.len() - 1) as nat,
        )));
        assert(pow10(s.len() as nat) == 10 * pow10((s.len() - 1) as nat));
        assert(10 * (val(s.skip(1)) + d * pow10((s.len() - 1) as nat)) == 10 * val(s.skip(1)) + d
            * (10 * pow10((s.len() - 1) as nat))) by (nonlinear_arith);
    }
}

/// One more taken digit adds its weighted value.
pub proof fn lemma_val_take_succ(s: Seq<u8>, i: int)
    requires
        0 <= i < s.len(),
    ensures
        val(s.take(i + 1)) == val(s.take(i)) + s[i] * pow10(i as nat),
{
    assert(s.take(i + 1) =~= s.take(i).push(s[i]));
    lemma_val_push(s.take(i), s[i]);
}

/// The value splits at any position into a low and a weighted high part.
pub proof fn lemma_val_split(s: Seq<u8>, t: int)
    requires
        0 <= t <= s.len(),
    ensures
        val(s) == val(s.take(t)) + pow10(t as nat) * val(s.skip(t)),
    decreases t,
{
    if t == 0 {
        assert(s.take(t) =~= Seq::<u8>::empty());
        assert(s.skip(t) =~= s);
        assert(val(s.take(t)) == 0);
        assert(val(s.skip(t)) == val(s));
        assert(pow10(t as nat) == 1) by {
            assert(npow(10, 0) == 1);
        }
        assert(val(s) == val(s.take(t)) + pow10(t as nat) * val(s.skip(t)));
    } else {
        lemma_val_split(s, t - 1);
        lemma_val_take_succ(s, t - 1);
        assert(s.take(t - 1 + 1) == s.take(t)) by {
            assert(s.take(t - 1 + 1) =~= s.take(t));
        }
        let r = val(s.skip(t));
        assert(s.skip(t - 1).skip(1) =~= s.skip(t));
        assert(s.skip(t - 1).len() > 0);
        assert(val(s.skip(t - 1)) == s[t - 1] as nat + 10 * r);
        assert(pow10((t - 1) as nat) * (s[t - 1] as nat + 10 * r) == s[t - 1] * pow10(
            (t - 1) as nat,
        ) + (10 * pow10((t - 1) as nat)) * r) by (nonlinear_arith);
        assert(pow10(t as nat) == 10 * pow10((t - 1) as nat));
        assert(val(s) == val(s.take(t)) + pow10(t as nat) * val(s.skip(t)));
    }
}

/// A well-formed vector of n digits is below 10^n.
pub proof fn lemma_val_bound(s: Seq<u8>)
    requires
        digits_wf(s),
    ensures
        val(s) < pow10(s.len() as nat),
    decreases s.len(),
{
    if s.len() == 0 {
    } else {
        lemma_val_bound(s.skip(1));
        let r = val(s.skip(1));
        let p = pow10((s.len() - 1) as nat);
        assert(10 * r <= 10 * (p - 1)) by (nonlinear_arith)
            requires r <= p - 1;
        assert(pow10(s.len() as nat) == 10 * p);
    }
}

/// A normalized nonzero vector of n digits is at least 10^(n-1).
pub proof fn lemma_val_norm_lower(s: Seq<u8>)
    requires
        digits_norm(s),
        s.len() > 0,
    ensures
        val(s) >= pow10((s.len() - 1) as nat),
{
    let t = s.len() - 1;
    lemma_val_split(s, t);
    assert(s.skip(t).len() == 1);
    lemma_val_singleton(s.skip(t));
    assert(val(s.skip(t)) == s[t] as nat);
    assert(pow10(t as nat) * val(s.skip(t)) >= pow10(t as nat) * 1) by (nonlinear_arith)
        requires val(s.skip(t)) >= 1, pow10(t as nat) >= 0;
}

/// The value is zero exactly when every digit is zero.
pub proof fn lemma_val_zero_iff(s: Seq<u8>)
    ensures
        val(s) == 0 <==> (forall|i: int| 0 <= i < s.len() ==> s[i] == 0),
    decreases s.len(),
{
    if s.len() > 0 {
        lemma_val_zero_iff(s.skip(1));
        if val(s) == 0 {
            assert(val(s) == s[0] as nat + 10 * val(s.skip(1)));
            assert forall|i: int| 0 <= i < s.len() implies s[i] == 0 by {
                if i >= 1 {
                    assert(s[i] == s.skip(1)[i - 1]);
                }
            }
        } else {
            if forall|i: int| 0 <= i < s.len() ==> s[i] == 0 {
                assert forall|i: int| 0 <= i < s.skip(1).len() implies s.skip(1)[i] == 0 by {
                    assert(s.skip(1)[i] == s[i + 1]);
                }
                assert(val(s.skip(1)) == 0);
                assert(val(s) == s[0] as nat + 10 * val(s.skip(1)));
            }
        }
    }
}

/// Replacing one digit changes the value by the weighted difference.
pub proof fn lemma_val_update(s: Seq<u8>, i: int, d: u8)
    requires
        0 <= i < s.len(),
    ensures
        val(s.update(i, d)) + s[i] * pow10(i as nat) == val(s) + d * pow10(i as nat),
{
    let u = s.update(i, d);
    lemma_val_split(s, i);
    lemma_val_split(u, i);
    assert(u.take(i) =~= s.take(i));
    assert(u.skip(i).skip(1) =~= s.skip(i).skip(1));
    assert(val(u.skip(i)) == d as nat + 10 * val(u.skip(i).skip(1)));
    assert(val(s.skip(i)) == s[i] as nat + 10 * val(s.skip(i).skip(1)));
    let r = val(s.skip(i).skip(1));
    let p = pow10(i as nat);
    assert(p * (d as nat + 10 * r) == d * p + p * (10 * r)) by (nonlinear_arith);
    assert(p * (s[i] as nat + 10 * r) == s[i] * p + p * (10 * r)) by (nonlinear_arith);
}

/// If two equally long vectors agree above position j and differ there, the
/// one with the smaller digit at j has the smaller value.
pub proof fn lemma_val_prefix_decides(a: Seq<u8>, b: Seq<u8>, j: int)
    requires
        digits_wf(a),
        digits_wf(b),
        a.len() == b.len(),
        0 <= j < a.len(),
        a.skip(j + 1) =~= b.skip(j + 1),
        a[j] < b[j],
    ensures
        val(a) < val(b),
{
    lemma_val_split(a, j);
    lemma_val_split(b, j);
    let r = val(a.skip(j + 1));
    assert(a.skip(j).skip(1) =~= a.skip(j + 1));
    assert(b.skip(j).skip(1) =~= b.skip(j + 1));
    assert(val(a.skip(j)) == a[j] as nat + 10 * r);
    assert(val(b.skip(j)) == b[j] as nat + 10 * r);
    lemma_val_bound(a.take(j));
    assert(a.take(j).len() == j);
    let p = pow10(j as nat);
    lemma_val_bound(b.take(j));
    assert(val(a) < p + p * (a[j] as nat + 10 * r));
    assert(p + p * (a[j] as nat + 10 * r) <= p * (b[j] as nat + 10 * r)) by (nonlinear_arith)
        requires a[j] + 1 <= b[j], p >= 1, r >= 0;
    lemma_npow_pos(10, j as nat);
    assert(val(b) >= p * (b[j] as nat + 10 * r));
}

/// Removes leading (most significant) zero digits.
pub fn normalize(v: &mut Vec<u8>)
    requires
        digits_wf(old(v)@),
    ensures
        digits_norm(final(v)@),
        val(final(v)@) == val(old(v)@),
        final(v)@.len() <= old(v)@.len(),
{
    while v.len() > 0 && v[v.len() - 1] == 0
        invariant
            digits_wf(v@),
            val(v@) == val(old(v)@),
            v@.len() <= old(v)@.len(),
        decreases v@.len(),
    {
        let ghost pre = v@;
        let n = v.len();
        proof {
            assert(pre[n - 1] == 0);
        }
        v.pop();
        proof {
            assert(v@ =~= pre.take(n - 1));
            lemma_val_split(pre, n - 1);
            lemma_val_singleton(pre.skip(n - 1));
            assert(pre.skip(n - 1)[0] == pre[n - 1]);
            assert(val(pre.skip(n - 1)) == 0);
            assert(pow10((n - 1) as nat) * val(pre.skip(n - 1)) == 0) by (nonlinear_arith)
                requires
                    val(pre.skip(n - 1)) == 0,
            ;
            assert(val(v@) == val(pre.take(n - 1)));
        }
    }
}

/// Multiplies a digit vector by a single-digit factor.
pub fn mul_small(d: &Vec<u8>, f: u8) -> (r: Vec<u8>)
    requires
        digits_wf(d@),
        1 <= f <= 9,
    ensures
        digits_wf(r@),
        val(r@) == f * val(d@),
        r@.len() <= d@.len() + 1,
{
    let mut out: Vec<u8> = Vec::new();
    let mut carry: u8 = 0;
    let mut i: usize = 0;
    let n = d.len();
    proof {
        assert(d@.take(0) =~= Seq::<u8>::empty());
        assert(val(d@.take(0)) == 0);
        assert(carry * pow10(0) == 0) by (nonlinear_arith)
            requires
                carry == 0,
        ;
        assert(f * val(d@.take(0)) == 0) by (nonlinear_arith)
            requires
                val(d@.take(0)) == 0,
        ;
    }
    while i < n
        invariant
            0 <= i <= n,
            n == d@.len(),
            digits_wf(d@),
            1 <= f <= 9,
            carry < f,
            out@.len() == i,
            digits_wf(out@),
            val(out@) + carry * pow10(i as nat) == f * val(d@.take(i as int)),
        decreases n - i,
    {
        let di: u8 = d[i];
        proof {
            assert(di < 10);
            assert(di * f <= 81) by (nonlinear_arith)
                requires
                    di <= 9,
                    f <= 9,
            ;
        }
        let x: u8 = di * f + carry;
        let ghost pre = out@;
        let ghost p = pow10(i as nat);
        out.push(x % 10);
        proof {
            lemma_val_push(pre, x % 10);
            lemma_val_take_succ(d@, i as int);
            assert(pow10((i + 1) as nat) == 10 * p) by {
                assert(npow(10, (i + 1) as nat) == 10 * npow(10, i as nat));
            }
            let lo = (x % 10) as nat;
            let hi = (x / 10) as nat;
            assert(lo + 10 * hi == x as nat);
            assert(val(pre) + lo * p + hi * (10 * p) == val(pre) + (lo + 10 * hi) * p)
                by (nonlinear_arith);
            assert((x as nat) * p == (di as nat * f) * p + carry * p) by (nonlinear_arith)
                requires
                    x as nat == di as nat * f + carry,
            ;
            assert(f * val(d@.take(i + 1)) == f * val(d@.take(i as int)) + (f * di as nat) * p)
                by (nonlinear_arith)
                requires
                    val(d@.take(i + 1)) == val(d@.take(i as int)) + di as nat * p,
            ;
            assert(val(pre) + carry * p == f * val(d@.take(i as int)));
            assert((x as nat) < 10 * (f as nat)) by (nonlinear_arith)
                requires
                    di as nat <= 9,
                    (carry as nat) < (f as nat),
                    x as nat == di as nat * f as nat + carry as nat,
            ;
        }
        carry = x / 10;
        i = i + 1;
    }
    proof {
        assert(d@.take(n as int) =~= d@);
    }
    if carry > 0 {
        proof {
            lemma_val_push(out@, carry);
        }
        out.push(carry);
    }
    out
}

/// Adds one to a normalized digit vector.
pub fn add_one(v: &mut Vec<u8>)
    requires
        digits_norm(old(v)@),
    ensures
        digits_norm(final(v)@),
        val(final(v)@) == val(old(v)@) + 1,
        final(v)@.len() <= old(v)@.len() + 1,
{
    let n = v.len();
    let mut i: usize = 0;
    proof {
        lemma_pow10_zero();
    }
    while i < n && v[i] == 9
        invariant
            0 <= i <= n,
            n == v@.len(),
            digits_norm(old(v)@),
            digits_wf(v@),
            v@.len() == old(v)@.len(),
            forall|k: int| i <= k < n ==> v@[k] == old(v)@[k],
            val(v@) + pow10(i as nat) == val(old(v)@) + 1,
        decreases n - i,
    {
        let ghost pre = v@;
        v.set(i, 0);
        proof {
            lemma_val_update(pre, i as int, 0);
            assert(pre[i as int] == 9);
            lemma_pow10_succ(i as nat);
        }
        i = i + 1;
    }
    if i < n {
        let ghost pre = v@;
        let di = v[i];
        let dnew: u8 = di + 1;
        v.set(i, dnew);
        proof {
            lemma_val_update(pre, i as int, dnew);
            let p = pow10(i as nat);
            assert((dnew as nat) * p == (di as nat) * p + p) by (nonlinear_arith)
                requires
                    dnew as nat == di as nat + 1,
            ;
            assert(v@[n - 1] != 0) by {
                if i < n - 1 {
                    assert(v@[n - 1] == old(v)@[n - 1]);
                }
            }
        }
    } else {
        proof {
            lemma_val_push(v@, 1);
        }
        v.push(1);
    }
}

/// Compares the values of two normalized digit vectors.
pub fn cmp_le(a: &Vec<u8>, b: &Vec<u8>) -> (r: bool)
    requires
        digits_norm(a@),
        digits_norm(b@),
    ensures
        r == (val(a@) <= val(b@)),
{
    let na = a.len();
    let nb = b.len();
    if na < nb {
        proof {
            lemma_val_bound(a@);
            lemma_val_norm_lower(b@);
            lemma_npow_increases(10, na as nat, (nb - 1) as nat);
        }
        return true;
    }
    if na > nb {
        proof {
            lemma_val_bound(b@);
            lemma_val_norm_lower(a@);
            lemma_npow_increases(10, nb as nat, (na - 1) as nat);
        }
        return false;
    }
    let mut j: usize = na;
    while j > 0
        invariant
            0 <= j <= na,
            na == a@.len(),
            nb == b@.len(),
            na == nb,
            digits_norm(a@),
            digits_norm(b@),
            forall|k: int| j <= k < na ==> a@[k] == b@[k],
        decreases j,
    {
        j = j - 1;
        if a[j] < b[j] {
            proof {
                assert(a@.skip(j + 1) =~= b@.skip(j + 1));
                lemma_val_prefix_decides(a@, b@, j as int);
            }
            return true;
        }
        if a[j] > b[j] {
            proof {
                assert(b@.skip(j + 1) =~= a@.skip(j + 1));
                lemma_val_prefix_decides(b@, a@, j as int);
            }
            return false;
        }
    }
    proof {
        assert(a@ =~= b@);
    }
    true
}

/// Multiplies a digit vector by 10^t by prepending t zero digits.
pub fn shift_up(d: &Vec<u8>, t: usize) -> (r: Vec<u8>)
    requires
        digits_wf(d@),
        d@.len() + t <= usize::MAX,
    ensures
        digits_wf(r@),
        val(r@) == val(d@) * pow10(t as nat),
        r@.len() == d@.len() + t,
        digits_norm(d@) && d@.len() > 0 ==> digits_norm(r@),
{
    let mut out: Vec<u8> = Vec::new();
    let mut i: usize = 0;
    while i < t
        invariant
            0 <= i <= t,
            out@.len() == i,
            digits_wf(out@),
            val(out@) == 0,
        decreases t - i,
    {
        proof {
            lemma_val_push(out@, 0);
        }
        out.push(0);
        i = i + 1;
    }
    let mut k: usize = 0;
    let n = d.len();
    proof {
        assert(d@.take(0) =~= Seq::<u8>::empty());
        assert(val(d@.take(0)) == 0);
        assert(val(d@.take(0)) * pow10(t as nat) == 0) by (nonlinear_arith)
            requires
                val(d@.take(0)) == 0,
        ;
    }
    while k < n
        invariant
            0 <= k <= n,
            n == d@.len(),
            digits_wf(d@),
            out@.len() == t + k,
            digits_wf(out@),
            val(out@) == val(d@.take(k as int)) * pow10(t as nat),
            forall|m: int| t <= m < t + k ==> out@[m] == d@[m - t],
        decreases n - k,
    {
        proof {
            lemma_val_push(out@, d@[k as int]);
            lemma_val_take_succ(d@, k as int);
            lemma_npow_adds(10, t as nat, k as nat);
            let p = pow10(t as nat);
            let q = pow10(k as nat);
            let vk = val(d@.take(k as int));
            assert(vk * p + (d@[k as int] as nat) * (p * q) == (vk + d@[k as int] * q) * p)
                by (nonlinear_arith);
        }
        out.push(d[k]);
        k = k + 1;
    }
    proof {
        assert(d@.take(n as int) =~= d@);
    }
    out
}

/// Multiplies a digit vector by `f^times` for a single-digit factor `f`.
pub fn mul_pow(d: &Vec<u8>, f: u8, times: u64) -> (r: Vec<u8>)
    requires
        digits_norm(d@),
        2 <= f <= 9,
        d@.len() + times <= 0x10000000,
    ensures
        digits_norm(r@),
        val(r@) == val(d@) * npow(f as nat, times as nat),
        r@.len() <= d@.len() + times,
{
    let mut out = d.clone();
    let mut i: u64 = 0;
    proof {
        assert(npow(f as nat, 0) == 1);
        assert(val(d@) * 1 == val(d@)) by (nonlinear_arith);
    }
    while i < times
        invariant
            0 <= i <= times,
            2 <= f <= 9,
            digits_norm(out@),
            val(out@) == val(d@) * npow(f as nat, i as nat),
            out@.len() <= d@.len() + i,
            d@.len() + times <= 0x10000000,
        decreases times - i,
    {
        let mut next = mul_small(&out, f);
        normalize(&mut next);
        i = i + 1;
        proof {
            assert(npow(f as nat, i as nat) == f * npow(f as nat, (i - 1) as nat));
            assert(f * (val(d@) * npow(f as nat, (i - 1) as nat)) == val(d@) * (f * npow(
                f as nat,
                (i - 1) as nat,
            ))) by (nonlinear_arith);
        }
        out = next;
    }
    out
}

/// Copies the digits at positions t and above: the value divided by 10^t.
pub fn high_part(d: &Vec<u8>, t: usize) -> (r: Vec<u8>)
    requires
        t <= d@.len(),
    ensures
        r@ == d@.skip(t as int),
{
    let mut out: Vec<u8> = Vec::new();
    let mut i: usize = t;
    let n = d.len();
    while i < n
        invariant
            t <= i <= n,
            n == d@.len(),
            out@ == d@.skip(t as int).take(i - t),
        decreases n - i,
    {
        proof {
            assert(d@.skip(t as int).take(i - t + 1) =~= d@.skip(t as int).take(i - t).push(
                d@[i as int],
            ));
        }
        out.push(d[i]);
        i = i + 1;
    }
    proof {
        assert(d@.skip(t as int).take(n - t) =~= d@.skip(t as int));
    }
    out
}

/// Whether every digit below position t is zero.
pub fn all_zero_below(d: &Vec<u8>, t: usize) -> (r: bool)
    requires
        t <= d@.len(),
    ensures
        r == (val(d@.take(t as int)) == 0),
{
    let mut i: usize = 0;
    while i < t
        invariant
            0 <= i <= t,
            t <= d@.len(),
            forall|k: int| 0 <= k < i ==> d@[k] == 0,
        decreases t - i,
    {
        if d[i] != 0 {
            proof {
                assert(d@.take(t as int)[i as int] == d@[i as int]);
                lemma_val_zero_iff(d@.take(t as int));
            }
            return false;
        }
        i = i + 1;
    }
    proof {
        lemma_val_zero_iff(d@.take(t as int));
    }
    true
}

} // verus!
