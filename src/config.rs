use vstd::prelude::*;
use crate::ratio::Ratio;
use vstd::arithmetic::div_mod::{lemma_basic_div, lemma_div_denominator, lemma_fundamental_div_mod, lemma_mod_pos_bound};

verus! {

pub open spec fn is_dec_digit(c: char) -> bool {
    '0' <= c && c <= '9'
}

pub open spec fn dec_digit_value(c: char) -> nat {
    (c as u32 - '0' as u32) as nat
}

/// The number written by a sequence of decimal digits, most significant first.
pub open spec fn dec_value(s: Seq<char>) -> nat
    decreases s.len(),
{
    if s.len() == 0 {
        0
    } else {
        dec_value(s.drop_last()) * 10 + dec_digit_value(s.last())
    }
}

pub open spec fn all_dec_digits(s: Seq<char>) -> bool {
    forall|i: int| 0 <= i < s.len() ==> is_dec_digit(#[trigger] s[i])
}

/// The digits of an unsigned integer literal: an optional leading `+`
/// followed by at least one decimal digit.
pub open spec fn uint_digits(s: Seq<char>) -> Seq<char> {
    if s.len() > 0 && s[0] == '+' {
        s.drop_first()
    } else {
        s
    }
}

/// What reading `s` as an unsigned 32-bit integer gives.
pub open spec fn parse_u32_spec(s: Seq<char>) -> Option<u32> {
    let d = uint_digits(s);
    if d.len() > 0 && all_dec_digits(d) && dec_value(d) <= u32::MAX {
        Some(dec_value(d) as u32)
    } else {
        None
    }
}

proof fn lemma_dec_value_push(s: Seq<char>, c: char)
    ensures
        dec_value(s.push(c)) == dec_value(s) * 10 + dec_digit_value(c),
{
    assert(s.push(c).drop_last() =~= s);
}

/// Reads `s` as an unsigned 32-bit integer.
pub fn parse_u32(s: &str) -> (r: Option<u32>)
    ensures
        r == parse_u32_spec(s@),
{
    let n = s.unicode_len();
    let mut i: usize = 0;
    if n > 0 && s.get_char(0) == '+' {
        i = 1;
    }
    let start = i;
    let ghost d = uint_digits(s@);
    assert(d =~= s@.subrange(start as int, n as int));
    if i == n {
        return None;
    }
    let mut acc: u64 = 0;
    while i < n
        invariant
            start <= i <= n,
            n == s@.len(),
            d == uint_digits(s@),
            d =~= s@.subrange(start as int, n as int),
            all_dec_digits(s@.subrange(start as int, i as int)),
            acc == dec_value(s@.subrange(start as int, i as int)),
            acc <= u32::MAX,
        decreases n - i,
    {
        let c = s.get_char(i);
        if !('0' <= c && c <= '9') {
            assert(d[i - start] == c);
            assert(!is_dec_digit(d[i - start]));
            assert(!all_dec_digits(d));
            return None;
        }
        let v = (c as u32 - '0' as u32) as u64;
        proof {
            assert(s@.subrange(start as int, i + 1) =~= s@.subrange(start as int, i as int).push(c));
            lemma_dec_value_push(s@.subrange(start as int, i as int), c);
        }
        let next = acc * 10 + v;
        if next > u32::MAX as u64 {
            proof {
                if all_dec_digits(d) {
                    assert(d.subrange(0, i + 1 - start) =~= s@.subrange(start as int, i + 1));
                    lemma_dec_prefix_le(d, (i + 1 - start) as int);
                }
            }
            return None;
        }
        acc = next;
        i = i + 1;
    }
    Some(acc as u32)
}

proof fn lemma_dec_prefix_le(s: Seq<char>, k: int)
    requires
        0 <= k <= s.len(),
        all_dec_digits(s),
    ensures
        dec_value(s.subrange(0, k)) <= dec_value(s),
    decreases s.len(),
{
    if k < s.len() {
        assert(s.drop_last() =~= s.subrange(0, s.len() - 1));
        assert(s.subrange(0, k) =~= s.drop_last().subrange(0, k));
        lemma_dec_prefix_le(s.drop_last(), k);
    } else {
        assert(s.subrange(0, k) =~= s);
    }
}

pub open spec fn pow10(k: nat) -> nat
    decreases k,
{
    if k == 0 {
        1
    } else {
        10 * pow10((k - 1) as nat)
    }
}

/// Significant digits of a rate that are kept: their number stays below
/// `10^19`, which fits in 64 bits.
pub const MAX_SIG_DIGITS: u64 = 19;

/// The index of the first `a` or `b` in `s`, or the length of `s` if there is none.
pub open spec fn first_of(s: Seq<char>, a: char, b: char) -> nat
    decreases s.len(),
{
    if s.len() == 0 || s[0] == a || s[0] == b {
        0
    } else {
        1 + first_of(s.drop_first(), a, b)
    }
}

/// A rate literal up to its exponent.
pub open spec fn mantissa(lit: Seq<char>) -> Seq<char> {
    lit.subrange(0, first_of(lit, 'e', 'E') as int)
}

/// The digits before the point.
pub open spec fn int_digits(lit: Seq<char>) -> Seq<char> {
    mantissa(lit).subrange(0, first_of(mantissa(lit), '.', '.') as int)
}

/// The digits after the point.
pub open spec fn frac_digits(lit: Seq<char>) -> Seq<char> {
    let m = mantissa(lit);
    let p = first_of(m, '.', '.');
    if p < m.len() {
        m.subrange(p + 1 as int, m.len() as int)
    } else {
        Seq::empty()
    }
}

/// What follows `e` or `E`, if the literal has an exponent.
pub open spec fn exp_text(lit: Seq<char>) -> Option<Seq<char>> {
    let p = first_of(lit, 'e', 'E');
    if p < lit.len() {
        Some(lit.subrange(p + 1 as int, lit.len() as int))
    } else {
        None
    }
}

pub open spec fn has_sign(t: Seq<char>) -> bool {
    t.len() > 0 && (t[0] == '+' || t[0] == '-')
}

/// The digits of an exponent, after its sign.
pub open spec fn exp_digits(t: Seq<char>) -> Seq<char> {
    if has_sign(t) {
        t.drop_first()
    } else {
        t
    }
}

/// The power of ten that the exponent stands for.
pub open spec fn exponent(lit: Seq<char>) -> int {
    match exp_text(lit) {
        Some(t) => if t.len() > 0 && t[0] == '-' {
            -(dec_value(exp_digits(t)) as int)
        } else {
            dec_value(exp_digits(t)) as int
        },
        None => 0,
    }
}

/// Digits with at most one point among them, at least one digit, then
/// optionally `e` or `E`, an optional sign and at least one digit.
pub open spec fn well_formed_rate(lit: Seq<char>) -> bool {
    &&& all_dec_digits(int_digits(lit))
    &&& all_dec_digits(frac_digits(lit))
    &&& int_digits(lit).len() + frac_digits(lit).len() > 0
    &&& (exp_text(lit) matches Some(t) ==> exp_digits(t).len() > 0 && all_dec_digits(exp_digits(t)))
}

pub open spec fn strip_leading_zeros(s: Seq<char>) -> Seq<char>
    decreases s.len(),
{
    if s.len() > 0 && s[0] == '0' {
        strip_leading_zeros(s.drop_first())
    } else {
        s
    }
}

/// The significant digits of a run of digits: from its first non-zero digit on.
pub open spec fn significant(d: Seq<char>) -> Seq<char> {
    strip_leading_zeros(d)
}

/// The leading significant digits that are kept.
pub open spec fn kept_digits(d: Seq<char>) -> Seq<char> {
    let s = significant(d);
    if s.len() <= MAX_SIG_DIGITS {
        s
    } else {
        s.subrange(0, MAX_SIG_DIGITS as int)
    }
}

/// Significant digits beyond the kept ones.
pub open spec fn dropped_count(d: Seq<char>) -> nat {
    (significant(d).len() - kept_digits(d).len()) as nat
}

/// The period of a rate `m * 10^y`, for `1 <= m < 10^19`, as a fraction of
/// 64-bit parts. It is exact when `y >= 0` and `m * 10^y` fits, and when
/// `-19 <= y < 0`. A shorter period is rounded up to `1 / u64::MAX`. A
/// period `10^-y / m` with `-y > 19` is taken as `10^19 / (m / 10^(-y - 19))`,
/// the division rounding down, and as `u64::MAX` seconds once that is zero.
pub open spec fn period_of(m: nat, y: int) -> Ratio {
    if y >= 0 {
        if m * pow10(y as nat) <= u64::MAX {
            Ratio { num: 1, den: (m * pow10(y as nat)) as u64 }
        } else {
            Ratio { num: 1, den: u64::MAX }
        }
    } else if -y <= MAX_SIG_DIGITS {
        Ratio { num: pow10((-y) as nat) as u64, den: m as u64 }
    } else if m / pow10((-y - MAX_SIG_DIGITS) as nat) > 0 {
        Ratio { num: pow10(MAX_SIG_DIGITS as nat) as u64, den: (m / pow10((-y - MAX_SIG_DIGITS) as nat)) as u64 }
    } else {
        Ratio { num: u64::MAX, den: 1 }
    }
}

/// What reading `s` as a positive float rate of events per second gives:
/// the period between two events, in seconds. Written `digits * 10^y`, with
/// `digits` the number formed by the digits before and after the point and
/// `y` the exponent less the number of digits after the point, the rate's
/// period is `10^-y / digits`. Of the significant digits the first
/// `MAX_SIG_DIGITS` are kept and the others count as zeros; the period is
/// then `period_of` of that. Every well-formed literal of a positive rate has
/// a period; a zero rate has none.
pub open spec fn parse_rate_spec(s: Seq<char>) -> Option<Ratio> {
    let lit = uint_digits(s);
    let d = int_digits(lit) + frac_digits(lit);
    if well_formed_rate(lit) && significant(d).len() > 0 {
        Some(
            period_of(
                dec_value(kept_digits(d)),
                dropped_count(d) + exponent(lit) - frac_digits(lit).len(),
            ),
        )
    } else {
        None
    }
}

proof fn lemma_pow10_mono(a: nat, b: nat)
    requires
        a <= b,
    ensures
        1 <= pow10(a) <= pow10(b),
    decreases b,
{
    if b > 0 {
        let a2 = if a < b { a } else { (b - 1) as nat };
        lemma_pow10_mono(a2, (b - 1) as nat);
    }
}

proof fn lemma_pow10_add(a: nat, b: nat)
    ensures
        pow10(a + b) == pow10(a) * pow10(b),
    decreases b,
{
    if b > 0 {
        lemma_pow10_add(a, (b - 1) as nat);
        assert((a + b - 1) as nat == a + (b - 1) as nat);
        assert(pow10(a + b) == 10 * pow10((a + b - 1) as nat));
        assert(pow10(b) == 10 * pow10((b - 1) as nat));
        assert(pow10(a) * (10 * pow10((b - 1) as nat)) == 10 * (pow10(a) * pow10((b - 1) as nat)))
            by (nonlinear_arith);
    } else {
        assert(a + b == a);
        assert(pow10(0) == 1);
        assert(pow10(a) * 1 == pow10(a));
    }
}

/// Twenty or more powers of ten do not fit in 64 bits.
proof fn lemma_pow10_big(k: nat)
    requires
        k >= 20,
    ensures
        pow10(k) > u64::MAX,
{
    lemma_pow10_mono(20, k);
    reveal_with_fuel(pow10, 21);
}

proof fn lemma_mul_ge(v: nat, p: nat)
    requires
        v >= 1,
        p >= 1,
    ensures
        v * p >= p,
        v * p >= v,
{
    assert(v * p >= p && v * p >= v) by (nonlinear_arith)
        requires v >= 1, p >= 1;
}

/// `v * 10^p`, if it fits in 64 bits.
fn mul_pow10(v: u64, p: u128) -> (r: Option<u64>)
    requires
        v > 0,
    ensures
        r matches Some(x) ==> x == v * pow10(p as nat),
        r is None ==> v * pow10(p as nat) > u64::MAX,
{
    let mut acc: u64 = v;
    let mut j: u128 = 0;
    assert(pow10(0) == 1);
    assert(v * pow10(0) == v);
    while j < p
        invariant
            j <= p,
            acc == v * pow10(j as nat),
            acc >= 1,
        decreases p - j,
    {
        proof {
            lemma_pow10_add(j as nat, 1);
            reveal_with_fuel(pow10, 2);
            assert(v * pow10((j + 1) as nat) == (v * pow10(j as nat)) * 10) by (nonlinear_arith)
                requires pow10((j + 1) as nat) == pow10(j as nat) * 10;
        }
        if acc > u64::MAX / 10 {
            proof {
                let rest = (p - j - 1) as nat;
                lemma_pow10_add((j + 1) as nat, rest);
                lemma_pow10_mono(0, rest);
                assert((j + 1) as nat + rest == p as nat);
                let big = v * pow10((j + 1) as nat);
                assert(v * pow10(p as nat) == big * pow10(rest)) by (nonlinear_arith)
                    requires
                        pow10(p as nat) == pow10((j + 1) as nat) * pow10(rest),
                        big == v * pow10((j + 1) as nat);
                lemma_mul_ge(big as nat, pow10(rest));
            }
            return None;
        }
        acc = acc * 10;
        j = j + 1;
    }
    Some(acc)
}

proof fn lemma_pow10_19()
    ensures
        pow10(19) == 10_000_000_000_000_000_000,
{
    reveal_with_fuel(pow10, 20);
}

/// `v / 10^k`, rounded down.
fn div_pow10(v: u64, k: u128) -> (r: u64)
    ensures
        r == (v as nat) / pow10(k as nat),
{
    let mut q: u64 = v;
    let mut j: u128 = 0;
    assert(pow10(0) == 1);
    while j < k && q > 0
        invariant
            j <= k,
            q == (v as nat) / pow10(j as nat),
        decreases k - j,
    {
        proof {
            lemma_pow10_mono(0, j as nat);
            lemma_div_denominator(v as int, pow10(j as nat) as int, 10);
            lemma_pow10_add(j as nat, 1);
            reveal_with_fuel(pow10, 2);
        }
        q = q / 10;
        j = j + 1;
    }
    proof {
        if j < k {
            let d = pow10(j as nat);
            lemma_pow10_mono(j as nat, k as nat);
            lemma_pow10_mono(0, j as nat);
            lemma_fundamental_div_mod(v as int, d as int);
            lemma_mod_pos_bound(v as int, d as int);
            assert(q == 0);
            assert((v as int) / (d as int) == 0);
            assert(d * 0 == 0);
            assert(v < d);
            lemma_basic_div(v as int, pow10(k as nat) as int);
        }
    }
    q
}

/// The period of the rate `m * 10^y`, as `period_of` states it.
fn period_from(m: u64, y: i128) -> (r: Ratio)
    requires
        1 <= m < pow10(MAX_SIG_DIGITS as nat),
        -0x1_0000_0000_0000_0000_0000_0000 < y < 0x1_0000_0000_0000_0000_0000_0000,
    ensures
        r == period_of(m as nat, y as int),
        r.wf(),
        r.num > 0,
{
    proof {
        reveal_with_fuel(pow10, 20);
    }
    if y >= 0 {
        proof {
            lemma_pow10_mono(0, y as nat);
            lemma_mul_ge(m as nat, pow10(y as nat));
        }
        match mul_pow10(m, y as u128) {
            Some(x) => Ratio { num: 1, den: x },
            None => Ratio { num: 1, den: u64::MAX },
        }
    } else if -y <= MAX_SIG_DIGITS as i128 {
        proof {
            lemma_pow10_mono((-y) as nat, 19);
            lemma_pow10_mono(0, (-y) as nat);
        }
        match mul_pow10(1, (-y) as u128) {
            Some(p) => Ratio { num: p, den: m },
            None => {
                assert(false);
                Ratio { num: u64::MAX, den: 1 }
            },
        }
    } else {
        let q = div_pow10(m, (-y - MAX_SIG_DIGITS as i128) as u128);
        if q > 0 {
            Ratio { num: 10_000_000_000_000_000_000, den: q }
        } else {
            Ratio { num: u64::MAX, den: 1 }
        }
    }
}

proof fn lemma_first_of(s: Seq<char>, a: char, b: char, i: int)
    requires
        0 <= i <= s.len(),
        forall|j: int| 0 <= j < i ==> s[j] != a && s[j] != b,
        i == s.len() || s[i] == a || s[i] == b,
    ensures
        first_of(s, a, b) == i,
    decreases s.len(),
{
    if i > 0 {
        assert(s[0] != a && s[0] != b);
        lemma_first_of(s.drop_first(), a, b, i - 1);
    }
}

proof fn lemma_strip_push(d: Seq<char>, c: char)
    ensures
        strip_leading_zeros(d.push(c)) == (if strip_leading_zeros(d).len() == 0 && c == '0' {
            strip_leading_zeros(d)
        } else {
            strip_leading_zeros(d).push(c)
        }),
    decreases d.len(),
{
    if d.len() == 0 {
        assert(d.push(c).drop_first() =~= d);
    } else if d[0] == '0' {
        assert(d.push(c).drop_first() =~= d.drop_first().push(c));
        lemma_strip_push(d.drop_first(), c);
    }
}

/// `m`, `kept` and `dropped` describe the digits `d` read so far.
pub open spec fn digit_state(d: Seq<char>, m: u64, kept: u64, dropped: usize) -> bool {
    &&& all_dec_digits(d)
    &&& m == dec_value(kept_digits(d))
    &&& kept == kept_digits(d).len()
    &&& dropped == dropped_count(d)
    &&& m < pow10(kept as nat)
    &&& (kept > 0 ==> m >= 1)
}

/// Reads the digits of `s` from `from` to `to` after the digits `d`.
fn feed_digits(s: &str, from: usize, to: usize, m: u64, kept: u64, dropped: usize, Ghost(d): Ghost<Seq<char>>)
    -> (r: Option<(u64, u64, usize)>)
    requires
        from <= to <= s@.len() <= usize::MAX,
        digit_state(d, m, kept, dropped),
        dropped <= from,
    ensures
        r matches Some((m2, k2, dr2)) ==> digit_state(d + s@.subrange(from as int, to as int), m2, k2, dr2)
            && dr2 <= to,
        r is None ==> !all_dec_digits(s@.subrange(from as int, to as int)),
{
    let mut m = m;
    let mut kept = kept;
    let mut dropped = dropped;
    let mut i = from;
    assert(d + s@.subrange(from as int, from as int) =~= d);
    while i < to
        invariant
            from <= i <= to <= s@.len() <= usize::MAX,
            digit_state(d + s@.subrange(from as int, i as int), m, kept, dropped),
            dropped <= i,
        decreases to - i,
    {
        let c = s.get_char(i);
        if !('0' <= c && c <= '9') {
            assert(s@.subrange(from as int, to as int)[i - from] == c);
            return None;
        }
        let v = (c as u32 - '0' as u32) as u64;
        assert(v == dec_digit_value(c));
        assert(v == 0 <==> c == '0');
        let ghost dd = d + s@.subrange(from as int, i as int);
        let ghost sd = strip_leading_zeros(dd);
        proof {
            assert(d + s@.subrange(from as int, i + 1) =~= dd.push(c));
            lemma_strip_push(dd, c);
            assert forall|j: int| 0 <= j < dd.push(c).len() implies is_dec_digit(#[trigger] dd.push(c)[j]) by {
                if j < dd.len() {
                    assert(dd.push(c)[j] == dd[j]);
                }
            }
            lemma_pow10_mono(kept as nat, 19);
            lemma_pow10_19();
        }
        if v == 0 && kept == 0 {
            proof {
                assert(sd.len() == 0);
                assert(strip_leading_zeros(dd.push(c)) == sd);
            }
        } else if kept < MAX_SIG_DIGITS {
            proof {
                assert(sd.len() == kept);
                assert(kept_digits(dd) == sd);
                assert(strip_leading_zeros(dd.push(c)) == sd.push(c));
                assert(kept_digits(dd.push(c)) == sd.push(c));
                lemma_dec_value_push(sd, c);
                assert(pow10((kept + 1) as nat) == 10 * pow10(kept as nat));
                lemma_pow10_mono((kept + 1) as nat, 19);
                let p = pow10(kept as nat);
                assert(m * 10 + v < 10 * p) by (nonlinear_arith)
                    requires m < p, v < 10;
            }
            m = m * 10 + v;
            kept = kept + 1;
        } else {
            proof {
                assert(sd.len() >= 19);
                assert(strip_leading_zeros(dd.push(c)) == sd.push(c));
                assert(sd.push(c).subrange(0, 19) =~= sd.subrange(0, 19));
                assert(kept_digits(dd.push(c)) == kept_digits(dd));
            }
            dropped = dropped + 1;
        }
        i = i + 1;
    }
    Some((m, kept, dropped))
}

/// The index of the first `a` or `b` in `s` from `from` to `to`, or `to`.
fn find_first(s: &str, from: usize, to: usize, a: char, b: char) -> (r: usize)
    requires
        from <= to <= s@.len(),
    ensures
        from <= r <= to,
        first_of(s@.subrange(from as int, to as int), a, b) == r - from,
{
    let mut i = from;
    while i < to && s.get_char(i) != a && s.get_char(i) != b
        invariant
            from <= i <= to <= s@.len(),
            forall|j: int| from <= j < i ==> s@[j] != a && s@[j] != b,
        decreases to - i,
    {
        i = i + 1;
    }
    proof {
        lemma_first_of(s@.subrange(from as int, to as int), a, b, i - from);
    }
    i
}

/// Reads the digits of an exponent, from `k` to the end of `s`. Values above
/// `cap` are given as `cap + 1`.
fn read_exponent(s: &str, k: usize, cap: u128) -> (r: Option<u128>)
    requires
        k <= s@.len() <= usize::MAX,
        cap <= 0x1_0000_0000_0000_0000_0000,
    ensures
        r is Some <==> s@.len() > k && all_dec_digits(s@.subrange(k as int, s@.len() as int)),
        r matches Some(v) ==> (v <= cap ==> v == dec_value(s@.subrange(k as int, s@.len() as int)))
            && (v > cap ==> v == cap + 1 && dec_value(s@.subrange(k as int, s@.len() as int)) > cap),
{
    let n = s.unicode_len();
    if k == n {
        return None;
    }
    let ghost ed = s@.subrange(k as int, n as int);
    let mut v: u128 = 0;
    let mut j = k;
    assert(s@.subrange(k as int, k as int) =~= Seq::<char>::empty());
    while j < n
        invariant
            k <= j <= n,
            n == s@.len(),
            ed == s@.subrange(k as int, n as int),
            cap <= 0x1_0000_0000_0000_0000_0000,
            all_dec_digits(s@.subrange(k as int, j as int)),
            v <= cap ==> v == dec_value(s@.subrange(k as int, j as int)),
            v > cap ==> v == cap + 1 && dec_value(s@.subrange(k as int, j as int)) > cap,
        decreases n - j,
    {
        let c = s.get_char(j);
        if !('0' <= c && c <= '9') {
            assert(ed[j - k] == c);
            return None;
        }
        let dv = (c as u32 - '0' as u32) as u128;
        proof {
            assert(s@.subrange(k as int, j + 1) =~= s@.subrange(k as int, j as int).push(c));
            lemma_dec_value_push(s@.subrange(k as int, j as int), c);
        }
        if v <= cap {
            let next = v * 10 + dv;
            v = if next <= cap { next } else { cap + 1 };
        }
        j = j + 1;
    }
    assert(s@.subrange(k as int, n as int) =~= ed);
    Some(v)
}

/// The period of the rate `m * 10^(dropped + e - frac_len)`, where the
/// exponent `e` is given by its sign and its size, or, past `cap`, by its
/// sign alone.
fn finish_rate(m: u64, dropped: usize, frac_len: usize, exp_neg: bool, exp_val: u128, cap: u128, Ghost(e): Ghost<int>)
    -> (r: Ratio)
    requires
        1 <= m < pow10(MAX_SIG_DIGITS as nat),
        dropped + 40 <= cap,
        frac_len + 40 <= cap,
        cap <= 0x1_0000_0000_0000_0000_0000,
        exp_val <= cap + 1,
        exp_val <= cap ==> e == (if exp_neg { -(exp_val as int) } else { exp_val as int }),
        exp_val > cap ==> (if exp_neg { e < -(cap as int) } else { e > cap }),
    ensures
        r == period_of(m as nat, dropped + e - frac_len),
        r.wf(),
        r.num > 0,
{
    let ghost y = dropped + e - frac_len;
    proof {
        lemma_pow10_19();
    }
    if exp_val > cap {
        proof {
            if exp_neg {
                lemma_pow10_mono(19, (-y - 19) as nat);
                lemma_basic_div(m as int, pow10((-y - 19) as nat) as int);
            } else {
                lemma_pow10_big(y as nat);
                lemma_mul_ge(m as nat, pow10(y as nat));
            }
        }
        if exp_neg {
            return Ratio { num: u64::MAX, den: 1 };
        } else {
            return Ratio { num: 1, den: u64::MAX };
        }
    }
    let yy: i128 = if exp_neg {
        dropped as i128 - exp_val as i128 - frac_len as i128
    } else {
        dropped as i128 + exp_val as i128 - frac_len as i128
    };
    period_from(m, yy)
}

/// Reads `s` as a positive float rate and gives its period in seconds, in
/// the form that `parse_rate_spec` states.
#[verifier::rlimit(50)]
pub fn parse_rate(s: &str) -> (r: Option<Ratio>)
    ensures
        r == parse_rate_spec(s@),
        r matches Some(p) ==> p.wf() && p.num > 0,
{
    let n = s.unicode_len();
    let mut start: usize = 0;
    if n > 0 && s.get_char(0) == '+' {
        start = 1;
    }
    let ghost lit = uint_digits(s@);
    assert(lit =~= s@.subrange(start as int, n as int));
    let ep = find_first(s, start, n, 'e', 'E');
    let ghost mant = s@.subrange(start as int, ep as int);
    assert(mant =~= mantissa(lit));
    let pp = find_first(s, start, ep, '.', '.');
    let ghost int_part = s@.subrange(start as int, pp as int);
    assert(int_part =~= int_digits(lit));
    proof {
        assert(strip_leading_zeros(Seq::<char>::empty()) == Seq::<char>::empty());
        assert(kept_digits(Seq::<char>::empty()) =~= Seq::<char>::empty());
        assert(Seq::<char>::empty() + int_part =~= int_part);
    }
    let (mut m, mut kept, mut dropped) = match feed_digits(s, start, pp, 0, 0, 0, Ghost(Seq::empty())) {
        Some(st) => st,
        None => return None,
    };
    let mut frac_len: usize = 0;
    if pp < ep {
        let ghost frac = s@.subrange(pp + 1, ep as int);
        assert(frac =~= frac_digits(lit));
        match feed_digits(s, pp + 1, ep, m, kept, dropped, Ghost(int_part)) {
            Some((m2, k2, d2)) => {
                m = m2;
                kept = k2;
                dropped = d2;
            },
            None => return None,
        }
        frac_len = ep - pp - 1;
    } else {
        assert(frac_digits(lit) =~= Seq::<char>::empty());
        assert(int_part + frac_digits(lit) =~= int_part);
    }
    let ghost d = int_digits(lit) + frac_digits(lit);
    assert(digit_state(d, m, kept, dropped));
    assert(frac_len == frac_digits(lit).len());
    if pp - start + frac_len == 0 {
        return None;
    }
    // Exponents above this bound are kept as the bound plus one: for a
    // literal of this length the period is then clamped either way.
    let cap: u128 = n as u128 + 40;
    let mut exp_neg = false;
    let mut exp_val: u128 = 0;
    if ep < n {
        let ghost t = s@.subrange(ep + 1, n as int);
        assert(exp_text(lit) == Some(t));
        let mut k = ep + 1;
        if k < n && (s.get_char(k) == '+' || s.get_char(k) == '-') {
            exp_neg = s.get_char(k) == '-';
            k = k + 1;
        }
        let ghost ed = s@.subrange(k as int, n as int);
        assert(ed =~= exp_digits(t));
        match read_exponent(s, k, cap) {
            Some(v) => exp_val = v,
            None => return None,
        }
        assert(exp_neg <==> (t.len() > 0 && t[0] == '-'));
    } else {
        assert(exp_text(lit) is None);
    }
    proof {
        assert forall|j: int| 0 <= j < frac_digits(lit).len() implies is_dec_digit(
            #[trigger] frac_digits(lit)[j],
        ) by {
            assert(d[int_part.len() + j] == frac_digits(lit)[j]);
        }
    }
    assert(well_formed_rate(lit));
    if kept == 0 {
        return None;
    }
    proof {
        lemma_pow10_mono(kept as nat, 19);
    }
    Some(finish_rate(m, dropped, frac_len, exp_neg, exp_val, cap, Ghost(exponent(lit))))
}

/// Why a configuration could not be built.
#[derive(Clone, Copy, Debug, PartialEq, Eq, Structural)]
pub enum ConfigError {
    /// A numeric option could not be read, or gave a rate of zero.
    ParseError,
    /// A colour was not of the form `#RRGGBB` or `#RRGGBBAA`.
    InvalidColorFormat,
}

/// A colour, each channel a fraction in `[0, 1]`.
#[derive(Clone, Copy, Debug, PartialEq, Eq, Structural)]
pub struct RgbaColor {
    pub red: Ratio,
    pub green: Ratio,
    pub blue: Ratio,
    pub alpha: Ratio,
}

pub open spec fn is_hex_digit(c: char) -> bool {
    ('0' <= c && c <= '9') || ('a' <= c && c <= 'f') || ('A' <= c && c <= 'F')
}

pub open spec fn hex_digit_value(c: char) -> nat {
    if '0' <= c && c <= '9' {
        (c as u32 - '0' as u32) as nat
    } else if 'a' <= c && c <= 'f' {
        (c as u32 - 'a' as u32 + 10) as nat
    } else {
        (c as u32 - 'A' as u32 + 10) as nat
    }
}

/// The byte written by the two hex digits of `s` at `i` and `i + 1`.
pub open spec fn hex_pair(s: Seq<char>, i: int) -> nat {
    hex_digit_value(s[i]) * 16 + hex_digit_value(s[i + 1])
}

/// `s` is `#` followed by six or eight hex digits of either case.
pub open spec fn valid_hex_code(s: Seq<char>) -> bool {
    &&& (s.len() == 7 || s.len() == 9)
    &&& s[0] == '#'
    &&& forall|i: int| 1 <= i < s.len() ==> is_hex_digit(#[trigger] s[i])
}

/// A channel given by a byte: the byte divided by 255.
pub open spec fn channel(b: nat) -> Ratio {
    Ratio { num: b as u64, den: 255 }
}

pub open spec fn hex_color_spec(s: Seq<char>) -> Result<RgbaColor, ConfigError> {
    if valid_hex_code(s) {
        Ok(
            RgbaColor {
                red: channel(hex_pair(s, 1)),
                green: channel(hex_pair(s, 3)),
                blue: channel(hex_pair(s, 5)),
                alpha: if s.len() == 9 { channel(hex_pair(s, 7)) } else { channel(255) },
            },
        )
    } else {
        Err(ConfigError::InvalidColorFormat)
    }
}

fn hex_digit(c: char) -> (r: Option<u64>)
    ensures
        r matches Some(v) ==> is_hex_digit(c) && v == hex_digit_value(c) && v < 16,
        r is None ==> !is_hex_digit(c),
{
    if '0' <= c && c <= '9' {
        Some((c as u32 - '0' as u32) as u64)
    } else if 'a' <= c && c <= 'f' {
        Some((c as u32 - 'a' as u32 + 10) as u64)
    } else if 'A' <= c && c <= 'F' {
        Some((c as u32 - 'A' as u32 + 10) as u64)
    } else {
        None
    }
}

/// Reads the two hex digits of `s` at `i` and `i + 1` as one byte.
fn hex_byte(s: &str, i: usize) -> (r: Option<u64>)
    requires
        i + 1 < s@.len() <= usize::MAX,
    ensures
        r matches Some(v) ==> is_hex_digit(s@[i as int]) && is_hex_digit(s@[i + 1])
            && v == hex_pair(s@, i as int) && v <= 255,
        r is None ==> !is_hex_digit(s@[i as int]) || !is_hex_digit(s@[i + 1]),
{
    let hi = hex_digit(s.get_char(i));
    let lo = hex_digit(s.get_char(i + 1));
    match (hi, lo) {
        (Some(h), Some(l)) => Some(h * 16 + l),
        _ => None,
    }
}

/// Reads a colour written `#RRGGBB` or `#RRGGBBAA`; without an alpha pair the
/// colour is opaque. Each channel is its byte divided by 255.
pub fn hex_code_to_color(hex_code: &str) -> (r: Result<RgbaColor, ConfigError>)
    ensures
        r == hex_color_spec(hex_code@),
        r is Ok <==> valid_hex_code(hex_code@),
        r matches Ok(c) ==> hex_code@.len() == 7 ==> c.alpha == channel(255),
        r matches Ok(c) ==> c.red == channel(hex_pair(hex_code@, 1)) && c.green == channel(
            hex_pair(hex_code@, 3),
        ) && c.blue == channel(hex_pair(hex_code@, 5)),
        r matches Ok(c) ==> hex_code@.len() == 9 ==> c.alpha == channel(hex_pair(hex_code@, 7)),
{
    let n = hex_code.unicode_len();
    if !(n == 7 || n == 9) || hex_code.get_char(0) != '#' {
        return Err(ConfigError::InvalidColorFormat);
    }
    let mut bytes: Vec<u64> = Vec::new();
    let mut i: usize = 1;
    while i < n
        invariant
            n == hex_code@.len(),
            n == 7 || n == 9,
            1 <= i <= n,
            i % 2 == 1,
            bytes@.len() == (i - 1) / 2,
            forall|j: int| 1 <= j < i ==> is_hex_digit(#[trigger] hex_code@[j]),
            forall|j: int|
                0 <= j < bytes@.len() ==> #[trigger] bytes@[j] == hex_pair(hex_code@, 2 * j + 1)
                    && bytes@[j] <= 255,
        decreases n - i,
    {
        match hex_byte(hex_code, i) {
            Some(b) => {
                bytes.push(b);
            },
            None => {
                return Err(ConfigError::InvalidColorFormat);
            },
        }
        i = i + 2;
    }
    let alpha = if n == 9 {
        bytes[3]
    } else {
        255
    };
    Ok(
        RgbaColor {
            red: Ratio { num: bytes[0], den: 255 },
            green: Ratio { num: bytes[1], den: 255 },
            blue: Ratio { num: bytes[2], den: 255 },
            alpha: Ratio { num: alpha, den: 255 },
        },
    )
}

/// Nanoseconds in one second.
pub const NANOS_PER_SEC: u64 = 1000000000;

/// The viewer's timing and display parameters.
#[derive(Clone, Copy, Debug, PartialEq, Eq, Structural)]
pub struct Config {
    /// Initial window width.
    pub window_width: u32,
    /// Initial window height.
    pub window_height: u32,
    /// Window background colour.
    pub bg_color: RgbaColor,
    /// Near-plane distance for perspective.
    pub z_near: Ratio,
    /// Far-plane distance for perspective.
    pub z_far: Ratio,
    /// Vertical field of view for perspective (radians).
    pub fov_y: Ratio,
    /// Time between two animation steps (seconds).
    pub animation_framerate: Ratio,
    /// Shortest time between two presented frames, if rendering is capped (seconds).
    pub max_render_framerate: Option<Ratio>,
    /// Length of the window over which the frame rate is measured (nanoseconds).
    pub fps_interval: u64,
}

/// A period that the timing logic can divide by.
pub open spec fn positive_period(p: Ratio) -> bool {
    p.wf() && p.num > 0
}

impl Config {
    /// Every rate of the configuration is strictly positive.
    pub open spec fn wf(self) -> bool {
        &&& positive_period(self.animation_framerate)
        &&& (self.max_render_framerate matches Some(p) ==> positive_period(p))
        &&& self.fps_interval > 0
    }

    pub open spec fn default_spec() -> Config {
        Config {
            window_width: 640,
            window_height: 480,
            bg_color: RgbaColor {
                red: Ratio { num: 3, den: 10 },
                green: Ratio { num: 3, den: 10 },
                blue: Ratio { num: 3, den: 10 },
                alpha: Ratio { num: 1, den: 1 },
            },
            z_near: Ratio { num: 1, den: 100 },
            z_far: Ratio { num: 4000, den: 1 },
            fov_y: Ratio { num: 11, den: 10 },
            animation_framerate: Ratio { num: 1, den: 60 },
            max_render_framerate: None,
            fps_interval: (2 * NANOS_PER_SEC) as u64,
        }
    }

    /// The configuration after the option `key` with text `value` is applied.
    /// Options that the viewer does not know leave it unchanged.
    pub open spec fn apply_spec(self, key: Seq<char>, value: Seq<char>) -> Result<Config, ConfigError> {
        if key == "window-width"@ {
            match parse_u32_spec(value) {
                Some(w) => Ok(Config { window_width: w, ..self }),
                None => Err(ConfigError::ParseError),
            }
        } else if key == "window-height"@ {
            match parse_u32_spec(value) {
                Some(h) => Ok(Config { window_height: h, ..self }),
                None => Err(ConfigError::ParseError),
            }
        } else if key == "animation-fps"@ {
            match parse_rate_spec(value) {
                Some(p) => Ok(Config { animation_framerate: p, ..self }),
                None => Err(ConfigError::ParseError),
            }
        } else if key == "max-render-fps"@ {
            match parse_rate_spec(value) {
                Some(p) => Ok(Config { max_render_framerate: Some(p), ..self }),
                None => Err(ConfigError::ParseError),
            }
        } else if key == "bg-color"@ {
            match hex_color_spec(value) {
                Ok(c) => Ok(Config { bg_color: c, ..self }),
                Err(e) => Err(e),
            }
        } else {
            Ok(self)
        }
    }

    /// The configuration after the options are applied in order; the first
    /// option that fails decides the error.
    pub open spec fn apply_all_spec(self, opts: Seq<(String, String)>) -> Result<Config, ConfigError>
        decreases opts.len(),
    {
        if opts.len() == 0 {
            Ok(self)
        } else {
            match self.apply_all_spec(opts.drop_last()) {
                Ok(c) => c.apply_spec(opts.last().0@, opts.last().1@),
                Err(e) => Err(e),
            }
        }
    }

    /// Builds the configuration from the defaults and the given options,
    /// `(name, value)` pairs applied in order, so that a later value of a
    /// name wins.
    pub fn from_cli_args(opt_args: &Vec<(String, String)>) -> (r: Result<Config, ConfigError>)
        ensures
            r == Config::default_spec().apply_all_spec(opt_args@),
            r matches Ok(c) ==> c.wf(),
    {
        let mut config = Config::default();
        let mut i: usize = 0;
        while i < opt_args.len()
            invariant
                0 <= i <= opt_args@.len(),
                Config::default_spec().apply_all_spec(opt_args@.subrange(0, i as int)) == Ok::<Config, ConfigError>(config),
                config.wf(),
            decreases opt_args@.len() - i,
        {
            let ghost pre = opt_args@.subrange(0, i as int);
            proof {
                assert(opt_args@.subrange(0, i + 1).drop_last() =~= pre);
            }
            let flag = opt_args[i].0.as_str();
            let value = opt_args[i].1.as_str();
            if str_eq(flag, "window-width") {
                match parse_u32(value) {
                    Some(w) => config.window_width = w,
                    None => {
                        proof { lemma_apply_all_err(opt_args@, i as int); }
                        return Err(ConfigError::ParseError);
                    }
                }
            } else if str_eq(flag, "window-height") {
                match parse_u32(value) {
                    Some(h) => config.window_height = h,
                    None => {
                        proof { lemma_apply_all_err(opt_args@, i as int); }
                        return Err(ConfigError::ParseError);
                    }
                }
            } else if str_eq(flag, "animation-fps") {
                match parse_rate(value) {
                    Some(p) => config.animation_framerate = p,
                    None => {
                        proof { lemma_apply_all_err(opt_args@, i as int); }
                        return Err(ConfigError::ParseError);
                    }
                }
            } else if str_eq(flag, "max-render-fps") {
                match parse_rate(value) {
                    Some(p) => config.max_render_framerate = Some(p),
                    None => {
                        proof { lemma_apply_all_err(opt_args@, i as int); }
                        return Err(ConfigError::ParseError);
                    }
                }
            } else if str_eq(flag, "bg-color") {
                match hex_code_to_color(value) {
                    Ok(c) => config.bg_color = c,
                    Err(e) => {
                        proof { lemma_apply_all_err(opt_args@, i as int); }
                        return Err(e);
                    }
                }
            }
            i = i + 1;
        }
        proof {
            assert(opt_args@.subrange(0, i as int) =~= opt_args@);
        }
        Ok(config)
    }
}

/// Once an option fails, applying more options keeps that error.
proof fn lemma_apply_all_err(opts: Seq<(String, String)>, i: int)
    requires
        0 <= i < opts.len(),
        Config::default_spec().apply_all_spec(opts.subrange(0, i + 1)) is Err,
    ensures
        Config::default_spec().apply_all_spec(opts) == Config::default_spec().apply_all_spec(opts.subrange(0, i + 1)),
    decreases opts.len(),
{
    if i + 1 == opts.len() {
        assert(opts.subrange(0, i + 1) =~= opts);
    } else {
        assert(opts.drop_last().subrange(0, i + 1) =~= opts.subrange(0, i + 1));
        lemma_apply_all_err(opts.drop_last(), i);
    }
}

impl Default for Config {
    fn default() -> (r: Config)
        ensures
            r == Config::default_spec(),
    {
        Config {
            window_width: 640,
            window_height: 480,
            bg_color: RgbaColor {
                red: Ratio { num: 3, den: 10 },
                green: Ratio { num: 3, den: 10 },
                blue: Ratio { num: 3, den: 10 },
                alpha: Ratio { num: 1, den: 1 },
            },
            z_near: Ratio { num: 1, den: 100 },
            z_far: Ratio { num: 4000, den: 1 },
            fov_y: Ratio { num: 11, den: 10 },
            animation_framerate: Ratio { num: 1, den: 60 },
            max_render_framerate: None,
            fps_interval: 2 * NANOS_PER_SEC,
        }
    }
}

/// Whether two strings hold the same characters.
fn str_eq(a: &str, b: &str) -> (r: bool)
    ensures
        r == (a@ == b@),
{
    let n = a.unicode_len();
    if n != b.unicode_len() {
        return false;
    }
    let mut i: usize = 0;
    while i < n
        invariant
            n == a@.len() == b@.len(),
            0 <= i <= n,
            forall|j: int| 0 <= j < i ==> a@[j] == b@[j],
        decreases n - i,
    {
        if a.get_char(i) != b.get_char(i) {
            return false;
        }
        i = i + 1;
    }
    assert(a@ =~= b@);
    true
}

} // verus!
