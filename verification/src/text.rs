//! Character-level surgery on a rendered number: trimming trailing
//! fractional zeros, writing a signed exponent, and injecting the configured
//! digit-group and decimal separators.

use vstd::prelude::*;

use crate::number::Dec;
use crate::render::digits_of;
use crate::render::int_chars;
use crate::spec_is_digit;

verus! {

/// `s` without its trailing '0' characters.
pub open spec fn trim_zeros(s: Seq<char>) -> Seq<char>
    decreases s.len(),
{
    if s.len() > 0 && s[s.len() - 1] == '0' {
        trim_zeros(s.drop_last())
    } else {
        s
    }
}

/// `s` without one trailing '.' character.
pub open spec fn trim_point(s: Seq<char>) -> Seq<char> {
    if s.len() > 0 && s[s.len() - 1] == '.' {
        s.drop_last()
    } else {
        s
    }
}

/// A fixed-point rendering without its trailing fractional zeros and, where
/// the whole fraction went, without the bare decimal point.
pub open spec fn spec_trim_frac(s: Seq<char>) -> Seq<char> {
    trim_point(trim_zeros(s))
}

/// Removes trailing '0' characters, then a bare trailing '.'.
pub fn trim_frac(v: &mut Vec<char>)
    ensures
        final(v)@ == spec_trim_frac(old(v)@),
{
    while v.len() > 0 && v[v.len() - 1] == '0'
        invariant
            trim_zeros(v@) == trim_zeros(old(v)@),
        decreases v@.len(),
    {
        let ghost pre = v@;
        v.pop();
        proof {
            assert(v@ =~= pre.drop_last());
        }
    }
    proof {
        assert(trim_zeros(v@) == v@);
    }
    if v.len() > 0 {
        let last = v[v.len() - 1];
        if last == '.' {
            let ghost pre = v@;
            v.pop();
            proof {
                assert(v@ =~= pre.drop_last());
            }
        }
    }
}

/// The decimal digits of `k` with a leading minus sign when negative.
pub open spec fn spec_signed_chars(k: int) -> Seq<char> {
    if k < 0 {
        seq!['-'] + digits_of((-k) as nat)
    } else {
        digits_of(k as nat)
    }
}

/// Writes a signed integer as characters.
pub fn signed_chars(k: i64) -> (r: Vec<char>)
    requires
        -0x2000_0000 <= k <= 0x2000_0000,
    ensures
        r@ == spec_signed_chars(k as int),
{
    let a: u64 = if k < 0 {
        (-k) as u64
    } else {
        k as u64
    };
    let ds = Dec::from_parts(false, a, 0);
    let mut tail = int_chars(&ds.digits);
    let mut out: Vec<char> = Vec::new();
    if k < 0 {
        out.push('-');
    }
    let ghost pre = out@;
    out.append(&mut tail);
    proof {
        assert(out@ =~= spec_signed_chars(k as int));
    }
    out
}

/// `s` with every '.' replaced by the sequence `dec`.
pub open spec fn subst_point(s: Seq<char>, dec: Seq<char>) -> Seq<char>
    decreases s.len(),
{
    if s.len() == 0 {
        Seq::empty()
    } else {
        (if s[0] == '.' {
            dec
        } else {
            seq![s[0]]
        }) + subst_point(s.skip(1), dec)
    }
}

/// Substitution distributes over appending one character.
pub proof fn lemma_subst_push(s: Seq<char>, c: char, dec: Seq<char>)
    ensures
        subst_point(s.push(c), dec) == subst_point(s, dec) + (if c == '.' {
            dec
        } else {
            seq![c]
        }),
    decreases s.len(),
{
    let x: Seq<char> = if c == '.' {
        dec
    } else {
        seq![c]
    };
    if s.len() == 0 {
        assert(s.push(c)[0] == c);
        assert(s.push(c).skip(1) =~= Seq::<char>::empty());
        assert(subst_point(s.push(c).skip(1), dec) == Seq::<char>::empty());
        assert(subst_point(s.push(c), dec) == x + subst_point(s.push(c).skip(1), dec));
        assert(subst_point(s, dec) == Seq::<char>::empty());
        assert(x + Seq::<char>::empty() =~= Seq::<char>::empty() + x);
        assert(subst_point(s.push(c), dec) =~= subst_point(s, dec) + x);
    } else {
        let h: Seq<char> = if s[0] == '.' {
            dec
        } else {
            seq![s[0]]
        };
        assert(s.push(c)[0] == s[0]);
        assert(s.push(c).skip(1) =~= s.skip(1).push(c));
        lemma_subst_push(s.skip(1), c, dec);
        assert(subst_point(s.push(c), dec) == h + subst_point(s.skip(1).push(c), dec));
        assert(subst_point(s.skip(1).push(c), dec) == subst_point(s.skip(1), dec) + x);
        assert(h + (subst_point(s.skip(1), dec) + x) =~= (h + subst_point(s.skip(1), dec)) + x);
        assert(subst_point(s, dec) == h + subst_point(s.skip(1), dec));
        assert(subst_point(s.push(c), dec) =~= subst_point(s, dec) + x);
    }
}

/// Appends `subst_point` of the characters `s[from..to]` to `out`.
pub fn subst_append(out: &mut Vec<char>, s: &Vec<char>, from: usize, to: usize, dec: &Vec<char>)
    requires
        from <= to <= s@.len(),
    ensures
        final(out)@ == old(out)@ + subst_point(s@.subrange(from as int, to as int), dec@),
{
    let mut i: usize = from;
    proof {
        assert(s@.subrange(from as int, from as int) =~= Seq::<char>::empty());
        assert(out@ =~= old(out)@ + subst_point(s@.subrange(from as int, i as int), dec@));
    }
    while i < to
        invariant
            from <= i <= to,
            to <= s@.len(),
            out@ == old(out)@ + subst_point(s@.subrange(from as int, i as int), dec@),
        decreases to - i,
    {
        let c = s[i];
        proof {
            assert(s@.subrange(from as int, i + 1) =~= s@.subrange(from as int, i as int).push(c));
            lemma_subst_push(s@.subrange(from as int, i as int), c, dec@);
        }
        if c == '.' {
            let mut dc = dec.clone();
            out.append(&mut dc);
        } else {
            out.push(c);
            proof {
                assert(out@ =~= old(out)@ + subst_point(s@.subrange(from as int, i + 1), dec@));
            }
        }
        i = i + 1;
    }
    proof {
        assert(out@ =~= old(out)@ + subst_point(s@.subrange(from as int, to as int), dec@));
    }
}

/// The index of the first decimal digit in `s`, or its length if none.
pub open spec fn first_digit(s: Seq<char>) -> int
    decreases s.len(),
{
    if s.len() == 0 {
        0
    } else if spec_is_digit(s[0]) {
        0
    } else {
        1 + first_digit(s.skip(1))
    }
}

/// The index of the first occurrence of `c` in `s`, or its length if none.
pub open spec fn first_char(s: Seq<char>, c: char) -> int
    decreases s.len(),
{
    if s.len() == 0 {
        0
    } else if s[0] == c {
        0
    } else {
        1 + first_char(s.skip(1), c)
    }
}

/// One past the last decimal digit in `s`, or zero if none.
pub open spec fn after_last_digit(s: Seq<char>) -> int
    decreases s.len(),
{
    if s.len() == 0 {
        0
    } else if spec_is_digit(s[s.len() - 1]) {
        s.len() as int
    } else {
        after_last_digit(s.drop_last())
    }
}

/// A scan that saw no digit before `i`, and a digit at `i` unless it ran out,
/// has found `first_digit`.
pub proof fn lemma_first_digit_at(s: Seq<char>, i: int)
    requires
        0 <= i <= s.len(),
        forall|j: int| 0 <= j < i ==> !spec_is_digit(s[j]),
        i < s.len() ==> spec_is_digit(s[i]),
    ensures
        first_digit(s) == i,
    decreases i,
{
    if i == 0 {
    } else {
        assert(!spec_is_digit(s[0]));
        assert forall|j: int| 0 <= j < i - 1 implies !spec_is_digit(s.skip(1)[j]) by {
            assert(s.skip(1)[j] == s[j + 1]);
        }
        if i - 1 < s.skip(1).len() {
            assert(s.skip(1)[i - 1] == s[i]);
        }
        lemma_first_digit_at(s.skip(1), i - 1);
    }
}

/// The same, for the first occurrence of a given character.
pub proof fn lemma_first_char_at(s: Seq<char>, c: char, i: int)
    requires
        0 <= i <= s.len(),
        forall|j: int| 0 <= j < i ==> s[j] != c,
        i < s.len() ==> s[i] == c,
    ensures
        first_char(s, c) == i,
    decreases i,
{
    if i == 0 {
    } else {
        assert(s[0] != c);
        assert forall|j: int| 0 <= j < i - 1 implies s.skip(1)[j] != c by {
            assert(s.skip(1)[j] == s[j + 1]);
        }
        if i - 1 < s.skip(1).len() {
            assert(s.skip(1)[i - 1] == s[i]);
        }
        lemma_first_char_at(s.skip(1), c, i - 1);
    }
}

/// A backwards scan that saw no digit at `i` or later, and a digit just
/// before `i` unless it reached the front, has found `after_last_digit`.
pub proof fn lemma_after_last_digit_at(s: Seq<char>, i: int)
    requires
        0 <= i <= s.len(),
        forall|j: int| i <= j < s.len() ==> !spec_is_digit(s[j]),
        i > 0 ==> spec_is_digit(s[i - 1]),
    ensures
        after_last_digit(s) == i,
    decreases s.len(),
{
    if i == s.len() {
        if s.len() > 0 {
            assert(spec_is_digit(s[s.len() - 1]));
        }
    } else {
        assert(!spec_is_digit(s[s.len() - 1]));
        assert forall|j: int| i <= j < s.drop_last().len() implies !spec_is_digit(
            s.drop_last()[j],
        ) by {
            assert(s.drop_last()[j] == s[j]);
        }
        if i > 0 {
            assert(s.drop_last()[i - 1] == s[i - 1]);
        }
        lemma_after_last_digit_at(s.drop_last(), i);
    }
}

/// The anchor of separator insertion: the decimal point if present, else the
/// scientific-notation multiplier if present, else one past the last digit.
pub open spec fn spec_anchor(s: Seq<char>) -> int {
    if first_char(s, '.') < s.len() {
        first_char(s, '.')
    } else if first_char(s, '*') < s.len() {
        first_char(s, '*')
    } else {
        after_last_digit(s)
    }
}

/// Group markers inserted every three digits left of position `i`, stopping
/// before `ear`, with the decimal point substituted: the group separator
/// lands at `i - 3`, `i - 6`, ..., while at least `ear + 3` positions remain.
pub open spec fn spec_group(
    s: Seq<char>,
    ear: int,
    i: int,
    group: Seq<char>,
    dec: Seq<char>,
) -> Seq<char>
    decreases i,
{
    if 0 <= ear && ear + 3 <= i && i <= s.len() {
        spec_group(s.take(i - 3), ear, i - 3, group, dec) + group + subst_point(
            s.skip(i - 3),
            dec,
        )
    } else {
        subst_point(s, dec)
    }
}

/// The separator stage: with a non-empty group separator, group markers are
/// inserted left of the anchor starting one position after the first digit;
/// the internal '.' becomes the configured decimal separator either way.
pub open spec fn spec_separate(s: Seq<char>, group: Seq<char>, dec: Seq<char>) -> Seq<char> {
    if group.len() == 0 {
        subst_point(s, dec)
    } else {
        spec_group(s, first_digit(s) + 1, spec_anchor(s), group, dec)
    }
}

/// Finds the first decimal digit of `s`.
fn scan_first_digit(s: &Vec<char>) -> (r: usize)
    ensures
        r == first_digit(s@),
        r <= s@.len(),
{
    let n = s.len();
    let mut i: usize = 0;
    while i < n
        invariant
            0 <= i <= n,
            n == s@.len(),
            forall|j: int| 0 <= j < i ==> !spec_is_digit(s@[j]),
        decreases n - i,
    {
        let c = s[i];
        if (c as u32) >= 48 && (c as u32) <= 57 {
            proof {
                lemma_first_digit_at(s@, i as int);
            }
            return i;
        }
        i = i + 1;
    }
    proof {
        lemma_first_digit_at(s@, n as int);
    }
    n
}

/// Finds the first occurrence of `c` in `s`.
fn scan_first_char(s: &Vec<char>, c: char) -> (r: usize)
    ensures
        r == first_char(s@, c),
        r <= s@.len(),
{
    let n = s.len();
    let mut i: usize = 0;
    while i < n
        invariant
            0 <= i <= n,
            n == s@.len(),
            forall|j: int| 0 <= j < i ==> s@[j] != c,
        decreases n - i,
    {
        if s[i] == c {
            proof {
                lemma_first_char_at(s@, c, i as int);
            }
            return i;
        }
        i = i + 1;
    }
    proof {
        lemma_first_char_at(s@, c, n as int);
    }
    n
}

/// Finds one past the last decimal digit of `s`.
fn scan_after_last_digit(s: &Vec<char>) -> (r: usize)
    ensures
        r == after_last_digit(s@),
        r <= s@.len(),
{
    let n = s.len();
    let mut i: usize = n;
    while i > 0
        invariant
            0 <= i <= n,
            n == s@.len(),
            forall|j: int| i <= j < n ==> !spec_is_digit(s@[j]),
        decreases i,
    {
        let c = s[i - 1];
        if (c as u32) >= 48 && (c as u32) <= 57 {
            proof {
                lemma_after_last_digit_at(s@, i as int);
            }
            return i;
        }
        i = i - 1;
    }
    proof {
        lemma_after_last_digit_at(s@, 0);
    }
    0
}

/// Injects the group separators and substitutes the decimal separator, per
/// [`spec_separate`].
pub fn separate(s: &Vec<char>, group: &Vec<char>, dec: &Vec<char>) -> (r: Vec<char>)
    ensures
        r@ == spec_separate(s@, group@, dec@),
{
    let n = s.len();
    let mut out: Vec<char> = Vec::new();
    if group.len() == 0 {
        subst_append(&mut out, s, 0, n, dec);
        proof {
            assert(s@.subrange(0, n as int) =~= s@);
        }
        return out;
    }
    let fd = scan_first_digit(s);
    let ghost ear: int = fd + 1;
    let a: usize = {
        let p = scan_first_char(s, '.');
        if p < n {
            p
        } else {
            let q = scan_first_char(s, '*');
            if q < n {
                q
            } else {
                scan_after_last_digit(s)
            }
        }
    };
    proof {
        assert(a == spec_anchor(s@));
    }
    if a < 4 || fd > a - 4 {
        // no room for a group separator between the first digit and the anchor
        subst_append(&mut out, s, 0, n, dec);
        proof {
            assert(!(0 <= ear && ear + 3 <= a && a <= s@.len()));
            assert(s@.subrange(0, n as int) =~= s@);
        }
        return out;
    }
    // the leftmost group separator lands at a - 3k, still at or right of ear
    let afd = a - fd - 1;
    let k = afd / 3;
    let pmin = a - 3 * k;
    proof {
        assert(ear + 3 * k <= a < ear + 3 * (k + 1)) by (nonlinear_arith)
            requires
                k == afd / 3,
                afd == a - ear,
                a >= ear,
        ;
    }
    subst_append(&mut out, s, 0, pmin, dec);
    let mut j: usize = pmin;
    proof {
        assert(s@.take(pmin as int) =~= s@.subrange(0, pmin as int));
        assert(out@ == spec_group(s@.take(j as int), ear, j as int, group@, dec@));
    }
    while a - j > 3
        invariant
            pmin <= j <= a - 3,
            a <= n,
            n == s@.len(),
            1 <= ear,
            ear + 3 <= a,
            pmin < ear + 3,
            (a - j) % 3 == 0,
            ear <= j,
            out@ == spec_group(s@.take(j as int), ear, j as int, group@, dec@),
        decreases a - j,
    {
        let mut g = group.clone();
        out.append(&mut g);
        subst_append(&mut out, s, j, j + 3, dec);
        proof {
            assert(s@.take(j + 3).take(j as int) =~= s@.take(j as int));
            assert(s@.take(j + 3).skip(j as int) =~= s@.subrange(j as int, j + 3));
            assert(out@ == spec_group(s@.take(j + 3), ear, j + 3, group@, dec@));
        }
        j = j + 3;
    }
    proof {
        assert(j == a - 3);
    }
    let mut g = group.clone();
    out.append(&mut g);
    subst_append(&mut out, s, a - 3, n, dec);
    proof {
        assert(s@.take(a - 3) =~= s@.take((a - 3) as int));
        assert(s@.skip((a - 3) as int) =~= s@.subrange((a - 3) as int, n as int));
        assert(out@ == spec_group(s@, ear, a as int, group@, dec@));
    }
    out
}

/// The characters of a string slice.
pub fn str_to_chars(s: &str) -> (r: Vec<char>)
    ensures
        r@ == s@,
{
    let n = s.unicode_len();
    let mut out: Vec<char> = Vec::new();
    let mut i: usize = 0;
    while i < n
        invariant
            0 <= i <= n,
            n == s@.len(),
            out@ == s@.take(i as int),
        decreases n - i,
    {
        proof {
            assert(s@.take(i + 1) =~= s@.take(i as int).push(s@[i as int]));
        }
        out.push(s.get_char(i));
        i = i + 1;
    }
    proof {
        assert(s@.take(n as int) =~= s@);
    }
    out
}

} // verus!
