//! Decimal numerals.
//!
//! A calculator value is a fixed-point decimal: an integer mantissa in
//! units of `10^-10`, so ten fractional digits.  This module defines the
//! specification of decimal digit strings (`dec_seq`, `pad_seq`,
//! `digits_value`), the canonical rendering of a mantissa
//! (`numeral_of`), the value of a displayed numeral
//! (`display_mantissa`), and the verified executable formatter
//! (`format_mantissa`).

use vstd::prelude::*;

verus! {

use vstd::string::StringExecFns;

/// One mantissa unit is `10^-10`, so a value `v` is stored as `v * SCALE_U`.
pub const SCALE_U: u128 = 10_000_000_000;

/// Half of `SCALE_U`, the rounding offset.
pub const HALF_SCALE_U: u128 = 5_000_000_000;

/// Largest representable mantissa magnitude: values range over
/// `[-10^18, 10^18]` in steps of `10^-10`.
pub const MAX_MAG: u128 = 10_000_000_000_000_000_000_000_000_000;

/// The display never grows beyond this many characters; digit and
/// decimal-point presses that would exceed it are ignored.
pub const DISPLAY_MAX: usize = 64;

/// The character for digit `d`.
pub open spec fn digit_char(d: nat) -> char {
    if d == 0 { '0' }
    else if d == 1 { '1' }
    else if d == 2 { '2' }
    else if d == 3 { '3' }
    else if d == 4 { '4' }
    else if d == 5 { '5' }
    else if d == 6 { '6' }
    else if d == 7 { '7' }
    else if d == 8 { '8' }
    else { '9' }
}

/// The digit value of a digit character.
pub open spec fn digit_val(c: char) -> nat {
    if c == '0' { 0 }
    else if c == '1' { 1 }
    else if c == '2' { 2 }
    else if c == '3' { 3 }
    else if c == '4' { 4 }
    else if c == '5' { 5 }
    else if c == '6' { 6 }
    else if c == '7' { 7 }
    else if c == '8' { 8 }
    else { 9 }
}

/// Whether `c` is one of the characters `'0'` through `'9'`.
pub open spec fn is_digit_char(c: char) -> bool {
    c == '0' || c == '1' || c == '2' || c == '3' || c == '4'
        || c == '5' || c == '6' || c == '7' || c == '8' || c == '9'
}

/// Whether every character of `s` is a digit.
pub open spec fn all_digits(s: Seq<char>) -> bool {
    forall|i: int| 0 <= i < s.len() ==> is_digit_char(#[trigger] s[i])
}

/// `10^n`.
pub open spec fn pow10(n: nat) -> nat
    decreases n,
{
    if n == 0 { 1 } else { 10 * pow10((n - 1) as nat) }
}

/// The decimal digit string of `n`, without leading zeros (`0` renders
/// as the single character `'0'`).
pub open spec fn dec_seq(n: nat) -> Seq<char>
    decreases n,
{
    if n < 10 { seq![digit_char(n)] } else { dec_seq(n / 10).push(digit_char(n % 10)) }
}

/// The decimal digit string of `n % 10^w`, zero-padded to exactly `w`
/// digits.
pub open spec fn pad_seq(n: nat, w: nat) -> Seq<char>
    decreases w,
{
    if w == 0 { Seq::empty() } else { pad_seq(n / 10, (w - 1) as nat).push(digit_char(n % 10)) }
}

/// The number denoted by a digit string, most significant digit first.
pub open spec fn digits_value(s: Seq<char>) -> nat
    decreases s.len(),
{
    if s.len() == 0 { 0 } else { digits_value(s.drop_last()) * 10 + digit_val(s.last()) }
}

proof fn lemma_digits_value_push(s: Seq<char>, c: char)
    ensures
        digits_value(s.push(c)) == digits_value(s) * 10 + digit_val(c),
{
    assert(s.push(c).drop_last() =~= s);
    assert(s.push(c).last() == c);
}

/// Facts about the plain decimal rendering: its value round-trips, it is
/// nonempty, all digits, and has no leading zero.
pub proof fn lemma_dec_seq(n: nat)
    ensures
        digits_value(dec_seq(n)) == n,
        dec_seq(n).len() >= 1,
        all_digits(dec_seq(n)),
        n > 0 ==> dec_seq(n)[0] != '0',
        dec_seq(n).len() > 1 ==> dec_seq(n)[0] != '0',
        n == 0 ==> dec_seq(n) =~= seq!['0'],
    decreases n,
{
    if n < 10 {
        assert(digits_value(seq![digit_char(n)].drop_last()) == 0) by {
            assert(seq![digit_char(n)].drop_last() =~= Seq::<char>::empty());
        }
    } else {
        lemma_dec_seq(n / 10);
        lemma_digits_value_push(dec_seq(n / 10), digit_char(n % 10));
        assert(dec_seq(n)[0] == dec_seq(n / 10)[0]);
    }
}

/// Facts about the zero-padded rendering: width, digits, and value for
/// `n < 10^w`.
pub proof fn lemma_pad_seq(n: nat, w: nat)
    ensures
        pad_seq(n, w).len() == w,
        all_digits(pad_seq(n, w)),
        n < pow10(w) ==> digits_value(pad_seq(n, w)) == n,
    decreases w,
{
    if w > 0 {
        lemma_pad_seq(n / 10, (w - 1) as nat);
        lemma_digits_value_push(pad_seq(n / 10, (w - 1) as nat), digit_char(n % 10));
        if n < pow10(w) {
            assert(n / 10 < pow10((w - 1) as nat)) by {
                assert(pow10(w) == 10 * pow10((w - 1) as nat));
            };
        }
    }
}

/// The decimal rendering of `n < 10^w` takes at most `w` characters
/// (for `w >= 1`).
pub proof fn lemma_dec_seq_len(n: nat, w: nat)
    requires
        w >= 1,
        n < pow10(w),
    ensures
        dec_seq(n).len() <= w,
    decreases w,
{
    if n >= 10 {
        assert(pow10(w) == 10 * pow10((w - 1) as nat));
        lemma_dec_seq_len(n / 10, (w - 1) as nat);
    }
}

pub proof fn lemma_pow10_pos(n: nat)
    ensures
        pow10(n) >= 1,
    decreases n,
{
    if n > 0 {
        lemma_pow10_pos((n - 1) as nat);
    }
}

pub proof fn lemma_pow10_adds(a: nat, b: nat)
    ensures
        pow10(a + b) == pow10(a) * pow10(b),
    decreases a,
{
    if a == 0 {
        assert(pow10(b) == 1 * pow10(b));
    } else {
        lemma_pow10_adds((a - 1) as nat, b);
        assert((a + b - 1) as nat == (a - 1) as nat + b);
        assert(10 * (pow10((a - 1) as nat) * pow10(b)) == (10 * pow10((a - 1) as nat)) * pow10(
            b,
        )) by (nonlinear_arith);
    }
}

pub proof fn lemma_pow10_mono(a: nat, b: nat)
    requires
        a <= b,
    ensures
        pow10(a) <= pow10(b),
        a < b ==> 10 * pow10(a) <= pow10(b),
    decreases b,
{
    if a < b {
        lemma_pow10_mono(a, (b - 1) as nat);
        lemma_pow10_pos(a);
    }
}

/// A digit string that denotes an unsigned integer: nonempty, all
/// digits, no leading zero.
pub open spec fn is_uint_numeral(s: Seq<char>) -> bool {
    &&& s.len() >= 1
    &&& all_digits(s)
    &&& s.len() > 1 ==> s[0] != '0'
}

/// Whether the numeral starts with a minus sign.
pub open spec fn has_sign(s: Seq<char>) -> bool {
    s.len() > 0 && s[0] == '-'
}

/// The numeral with its minus sign, if any, removed.
pub open spec fn unsigned_of(s: Seq<char>) -> Seq<char> {
    if has_sign(s) { s.drop_first() } else { s }
}

/// The integer part of a displayed numeral: an optional minus sign
/// followed by an unsigned integer numeral.
pub open spec fn is_int_part(s: Seq<char>) -> bool {
    is_uint_numeral(unsigned_of(s))
}

/// The shape of a displayed numeral, given how many digits follow the
/// decimal point (`None`: the display holds no point at all).
pub open spec fn display_shape(s: Seq<char>, frac: Option<nat>) -> bool {
    match frac {
        None => is_int_part(s),
        Some(k) => {
            &&& s.len() >= k + 2
            &&& s[s.len() - k - 1] == '.'
            &&& is_int_part(s.take(s.len() - k - 1))
            &&& all_digits(s.skip(s.len() - k))
        },
    }
}

/// The characters before the decimal point (the whole numeral when
/// there is none).
pub open spec fn int_part(s: Seq<char>, frac: Option<nat>) -> Seq<char> {
    match frac {
        None => s,
        Some(k) => s.take(s.len() - k - 1),
    }
}

/// The characters after the decimal point (empty when there is none).
pub open spec fn frac_part(s: Seq<char>, frac: Option<nat>) -> Seq<char> {
    match frac {
        None => Seq::empty(),
        Some(k) => s.skip(s.len() - k),
    }
}

/// The mantissa contribution of a fractional digit string: its first
/// ten digits, scaled so that a full ten-digit string counts as is.
/// Digits beyond the tenth lie below the resolution and are dropped.
pub open spec fn frac_value(fp: Seq<char>) -> nat {
    if fp.len() >= 10 {
        digits_value(fp.take(10))
    } else {
        digits_value(fp) * pow10((10 - fp.len()) as nat)
    }
}

/// The mantissa denoted by a displayed numeral.
pub open spec fn display_mantissa(s: Seq<char>, frac: Option<nat>) -> int {
    let mag = digits_value(unsigned_of(int_part(s, frac))) * (SCALE_U as nat) + frac_value(
        frac_part(s, frac),
    );
    if has_sign(int_part(s, frac)) {
        -(mag as int)
    } else {
        mag as int
    }
}

pub proof fn lemma_frac_value_push(fp: Seq<char>, c: char)
    ensures
        fp.len() < 10 ==> frac_value(fp.push(c)) == frac_value(fp) + digit_val(c) * pow10(
            (9 - fp.len()) as nat,
        ),
        fp.len() >= 10 ==> frac_value(fp.push(c)) == frac_value(fp),
    decreases fp.len(),
{
    if fp.len() < 10 {
        lemma_digits_value_push(fp, c);
        let w = (9 - fp.len()) as nat;
        assert(pow10(w + 1) == 10 * pow10(w));
        assert((digits_value(fp) * 10 + digit_val(c)) * pow10(w) == digits_value(fp) * (10
            * pow10(w)) + digit_val(c) * pow10(w)) by (nonlinear_arith);
        assert(frac_value(fp) == digits_value(fp) * pow10(w + 1));
        if fp.len() == 9 {
            assert(fp.push(c).take(10) =~= fp.push(c));
            assert(pow10(0) == 1);
            assert(digits_value(fp.push(c).take(10)) == digits_value(fp.push(c)));
            assert(frac_value(fp.push(c)) == digits_value(fp.push(c)));
            assert(pow10(w) == 1);
            assert(digits_value(fp.push(c)) * pow10(w) == digits_value(fp.push(c)))
                by (nonlinear_arith)
                requires
                    pow10(w) == 1,
            ;
        } else {
            assert(frac_value(fp.push(c)) == digits_value(fp.push(c)) * pow10(
                (10 - fp.push(c).len()) as nat,
            ));
            assert((10 - fp.push(c).len()) as nat == w);
        }
        assert(frac_value(fp.push(c)) == digits_value(fp.push(c)) * pow10(w));
        assert(digits_value(fp.push(c)) * pow10(w) == (digits_value(fp) * 10 + digit_val(c))
            * pow10(w));
        assert(frac_value(fp.push(c)) == frac_value(fp) + digit_val(c) * pow10(w));
    } else {
        assert(fp.push(c).take(10) =~= fp.take(10));
    }
}

/// The digit string with its trailing zero digits removed.
pub open spec fn strip0(s: Seq<char>) -> Seq<char>
    decreases s.len(),
{
    if s.len() > 0 && s.last() == '0' {
        strip0(s.drop_last())
    } else {
        s
    }
}

pub proof fn lemma_strip0(s: Seq<char>)
    requires
        s.len() <= 10,
    ensures
        strip0(s).len() <= s.len(),
        all_digits(s) ==> all_digits(strip0(s)),
        frac_value(strip0(s)) == frac_value(s),
        strip0(s).len() == 0 ==> frac_value(s) == 0,
    decreases s.len(),
{
    if s.len() > 0 && s.last() == '0' {
        lemma_strip0(s.drop_last());
        lemma_digits_value_push(s.drop_last(), s.last());
        assert(s.drop_last().push(s.last()) =~= s);
        let w = (10 - s.len()) as nat;
        if s.len() == 10 {
            assert(s.take(10) =~= s);
            assert(pow10(0) == 1);
            assert(digits_value(s) * pow10(w) == digits_value(s)) by (nonlinear_arith)
                requires
                    pow10(w) == 1,
            ;
        }
        assert(frac_value(s) == digits_value(s) * pow10(w));
        assert(pow10(w + 1) == 10 * pow10(w));
        assert((digits_value(s.drop_last()) * 10 + 0) * pow10(w) == digits_value(s.drop_last())
            * (10 * pow10(w))) by (nonlinear_arith);
        assert(frac_value(s.drop_last()) == digits_value(s.drop_last()) * pow10(w + 1));
        assert(all_digits(s) ==> all_digits(s.drop_last()));
    } else {
        if s.len() == 0 {
            assert(frac_value(s) == 0 * pow10(10));
        }
    }
}

/// How many decimal points a character string holds.
pub open spec fn point_count(s: Seq<char>) -> nat
    decreases s.len(),
{
    if s.len() == 0 {
        0
    } else {
        point_count(s.drop_last()) + (if s.last() == '.' {
            1nat
        } else {
            0nat
        })
    }
}

pub proof fn lemma_point_count_concat(a: Seq<char>, b: Seq<char>)
    ensures
        point_count(a + b) == point_count(a) + point_count(b),
    decreases b.len(),
{
    if b.len() == 0 {
        assert(a + b =~= a);
    } else {
        lemma_point_count_concat(a, b.drop_last());
        assert((a + b).drop_last() =~= a + b.drop_last());
        assert((a + b).last() == b.last());
    }
}

pub proof fn lemma_point_count_zero(s: Seq<char>)
    requires
        forall|i: int| 0 <= i < s.len() ==> s[i] != '.',
    ensures
        point_count(s) == 0,
    decreases s.len(),
{
    if s.len() > 0 {
        lemma_point_count_zero(s.drop_last());
    }
}

/// The mantissa with sign `neg` and magnitude `mag`.
pub open spec fn signed_mantissa(neg: bool, mag: nat) -> int {
    if neg {
        -(mag as int)
    } else {
        mag as int
    }
}

/// The magnitude of a mantissa.
pub open spec fn mag_of(m: int) -> nat {
    if m < 0 {
        (-m) as nat
    } else {
        m as nat
    }
}

pub proof fn lemma_pow10_vals()
    ensures
        pow10(10) == SCALE_U as nat,
        pow10(18) == 1_000_000_000_000_000_000 as nat,
        pow10(19) == 10_000_000_000_000_000_000 as nat,
        pow10(28) == MAX_MAG as nat,
{
    reveal_with_fuel(pow10, 32);
}

/// The canonical numeral for mantissa `m`: an optional minus sign, the
/// integer part without leading zeros, and, when the fractional part
/// is not zero, a point and the ten fractional digits with trailing
/// zeros removed.
pub open spec fn numeral_of(m: int) -> Seq<char> {
    let mag = mag_of(m);
    let sign: Seq<char> = if m < 0 {
        seq!['-']
    } else {
        Seq::empty()
    };
    let ip = mag / (SCALE_U as nat);
    let f = mag % (SCALE_U as nat);
    if f == 0 {
        sign + dec_seq(ip)
    } else {
        sign + dec_seq(ip) + seq!['.'] + strip0(pad_seq(f, 10))
    }
}

/// How many digits follow the point in `numeral_of(m)` (`None` when it
/// has no point).
pub open spec fn frac_of(m: int) -> Option<nat> {
    let f = mag_of(m) % (SCALE_U as nat);
    if f == 0 {
        None
    } else {
        Some(strip0(pad_seq(f, 10)).len())
    }
}

/// The canonical numeral round-trips: it has the display shape for its
/// own fractional digit count, it denotes the mantissa it was rendered
/// from, it is signed exactly for negative mantissas, and it is short.
pub proof fn lemma_numeral_roundtrip(m: int)
    requires
        -(MAX_MAG as int) <= m <= MAX_MAG as int,
    ensures
        display_shape(numeral_of(m), frac_of(m)),
        display_mantissa(numeral_of(m), frac_of(m)) == m,
        has_sign(numeral_of(m)) <==> m < 0,
        m == 0 ==> numeral_of(m) =~= seq!['0'],
        numeral_of(m).len() <= 31,
        frac_of(m) matches Some(k) ==> 1 <= k <= 10,
{
    let mag = mag_of(m);
    let s_u = SCALE_U as nat;
    let ip = mag / s_u;
    let f = mag % s_u;
    let sign: Seq<char> = if m < 0 {
        seq!['-']
    } else {
        Seq::empty()
    };
    lemma_pow10_vals();
    assert(ip <= pow10(18)) by {
        vstd::arithmetic::div_mod::lemma_div_is_ordered(mag as int, pow10(28) as int, s_u as int);
        assert(pow10(28) as int / (s_u as int) == pow10(18) as int) by {
            lemma_pow10_adds(18, 10);
            vstd::arithmetic::div_mod::lemma_div_multiples_vanish(
                pow10(18) as int,
                pow10(10) as int,
            );
        };
    };
    lemma_dec_seq(ip);
    lemma_dec_seq_len(ip, 19);
    vstd::arithmetic::div_mod::lemma_fundamental_div_mod(mag as int, s_u as int);
    assert(mag == ip * s_u + f);
    if m < 0 {
        assert(mag > 0);
    }
    let body = sign + dec_seq(ip);
    assert(unsigned_of(body) =~= dec_seq(ip));
    assert(is_digit_char(body[0]) ==> body[0] != '-');
    if f == 0 {
        let s = numeral_of(m);
        assert(s == body);
        assert(m < 0 ==> ip > 0);
        assert(is_int_part(s));
        assert(frac_part(s, frac_of(m)) =~= Seq::<char>::empty());
        assert(frac_value(Seq::<char>::empty()) == 0 * pow10(10));
        assert(display_mantissa(s, frac_of(m)) == m);
        if m == 0 {
            assert(s =~= seq!['0']);
        }
    } else {
        let pad = pad_seq(f, 10);
        let fpr = strip0(pad);
        let s = numeral_of(m);
        lemma_pad_seq(f, 10);
        lemma_strip0(pad);
        assert(frac_value(pad) == f) by {
            assert(pad.take(10) =~= pad);
        };
        assert(fpr.len() >= 1);
        let k = fpr.len();
        assert(s.len() == sign.len() + dec_seq(ip).len() + 1 + k);
        assert(s[s.len() - k - 1] == '.');
        assert(s.take(s.len() - k - 1) =~= body);
        assert(s.skip(s.len() - k) =~= fpr);
        assert(display_shape(s, frac_of(m)));
        assert(display_mantissa(s, frac_of(m)) == m);
    }
}

pub(crate) proof fn lemma_frac_value_empty()
    ensures
        frac_value(Seq::<char>::empty()) == 0,
{
    assert(frac_value(Seq::<char>::empty()) == 0 * pow10(10));
}

/// The display holding the single digit `d`.
pub proof fn lemma_single_digit(d: char)
    requires
        is_digit_char(d),
    ensures
        display_shape(seq![d], None),
        display_mantissa(seq![d], None) == digit_val(d) * (SCALE_U as nat),
        !has_sign(seq![d]),
{
    assert(seq![d][0] == d);
    assert(all_digits(seq![d]));
    assert(seq![d].drop_last() =~= Seq::<char>::empty());
    lemma_frac_value_empty();
}

/// Appending a digit to a pointless display multiplies the value by
/// ten and adds the digit at the last integer place.
pub proof fn lemma_int_append(s: Seq<char>, d: char)
    requires
        is_int_part(s),
        is_digit_char(d),
        display_mantissa(s, None) != 0,
    ensures
        display_shape(s.push(d), None),
        has_sign(s.push(d)) == has_sign(s),
        display_mantissa(s.push(d), None) == display_mantissa(s, None) * 10 + (if has_sign(s) {
            -(digit_val(d) * (SCALE_U as nat) as int)
        } else {
            digit_val(d) * (SCALE_U as nat) as int
        }),
{
    lemma_frac_value_empty();
    let u = unsigned_of(s);
    let dv = digits_value(u);
    assert(dv != 0) by {
        if dv == 0 {
            assert(dv * (SCALE_U as nat) == 0);
        }
    };
    if u.len() == 1 {
        assert(u.drop_last() =~= Seq::<char>::empty());
        assert(u.last() == u[0]);
        assert(digit_val(u[0]) != 0);
        assert(u[0] != '0');
    }
    assert(unsigned_of(s.push(d)) =~= u.push(d)) by {
        if has_sign(s) {
            assert(s.push(d).drop_first() =~= s.drop_first().push(d));
        }
    };
    lemma_digits_value_push(u, d);
    assert(is_uint_numeral(u.push(d))) by {
        assert(u.push(d)[0] == u[0]);
        assert(forall|i: int| 0 <= i < u.push(d).len() ==> is_digit_char(#[trigger] u.push(d)[i]))
            by {
            assert(forall|i: int| 0 <= i < u.len() ==> is_digit_char(#[trigger] u[i]));
            assert(u.push(d)[u.len() as int] == d);
            assert(forall|i: int| 0 <= i < u.len() ==> u.push(d)[i] == u[i]);
        };
    };
    assert((dv * 10 + digit_val(d)) * (SCALE_U as nat) == (dv * (SCALE_U as nat)) * 10 + digit_val(
        d,
    ) * (SCALE_U as nat)) by (nonlinear_arith);
}

/// Appending a digit after the point adds it at the next fractional
/// place; digits beyond the tenth lie below the resolution.
pub proof fn lemma_frac_append(s: Seq<char>, k: nat, d: char)
    requires
        display_shape(s, Some(k)),
        is_digit_char(d),
    ensures
        display_shape(s.push(d), Some(k + 1)),
        has_sign(s.push(d)) == has_sign(s),
        k < 10 ==> display_mantissa(s.push(d), Some(k + 1)) == display_mantissa(s, Some(k)) + (
        if has_sign(s) {
            -(digit_val(d) * pow10((9 - k) as nat) as int)
        } else {
            digit_val(d) * pow10((9 - k) as nat) as int
        }),
        k >= 10 ==> display_mantissa(s.push(d), Some(k + 1)) == display_mantissa(s, Some(k)),
{
    let s2 = s.push(d);
    let ip = int_part(s, Some(k));
    let fp = frac_part(s, Some(k));
    assert(fp.len() == k);
    assert(int_part(s2, Some(k + 1)) =~= ip);
    assert(frac_part(s2, Some(k + 1)) =~= fp.push(d));
    assert(s2[s2.len() - (k + 1) - 1] == '.');
    assert(all_digits(frac_part(s2, Some(k + 1)))) by {
        assert(forall|i: int| 0 <= i < fp.len() ==> is_digit_char(#[trigger] fp[i]));
        assert(forall|i: int| 0 <= i < fp.push(d).len() ==> is_digit_char(
            #[trigger] fp.push(d)[i],
        )) by {
            assert(forall|i: int| 0 <= i < fp.len() ==> fp.push(d)[i] == fp[i]);
            assert(fp.push(d)[fp.len() as int] == d);
        };
    };
    lemma_frac_value_push(fp, d);
    assert(s.len() > 0 && s2[0] == s[0]);
}

/// Appending the decimal point keeps the value; no digits follow it
/// yet.
pub proof fn lemma_point_append(s: Seq<char>)
    requires
        is_int_part(s),
    ensures
        display_shape(s.push('.'), Some(0)),
        has_sign(s.push('.')) == has_sign(s),
        display_mantissa(s.push('.'), Some(0)) == display_mantissa(s, None),
{
    let s2 = s.push('.');
    assert(int_part(s2, Some(0)) =~= s);
    assert(frac_part(s2, Some(0)) =~= Seq::<char>::empty());
    assert(frac_part(s, None) =~= Seq::<char>::empty());
    assert(s2[s2.len() - 0 - 1] == '.');
    lemma_frac_value_empty();
    assert(all_digits(frac_part(s2, Some(0))));
}

proof fn lemma_strip_pad(v: nat, z: nat, w: nat)
    requires
        v > 0,
        v % 10 != 0,
        z <= w,
        v < pow10((w - z) as nat),
    ensures
        strip0(pad_seq(v * pow10(z), w)) == pad_seq(v, (w - z) as nat),
    decreases z,
{
    lemma_pow10_pos((w - z) as nat);
    if z == 0 {
        assert(v * pow10(0) == v) by (nonlinear_arith)
            requires
                pow10(0) == 1,
        ;
        assert(w - z >= 1) by {
            if w == z {
                assert(pow10(0) == 1);
            }
        };
        assert(pad_seq(v, w).last() == digit_char(v % 10));
        assert(digit_char(v % 10) != '0');
        assert(strip0(pad_seq(v, w)) == pad_seq(v, w));
    } else {
        let fz = v * pow10(z);
        let fz1 = v * pow10((z - 1) as nat);
        assert(pow10(z) == 10 * pow10((z - 1) as nat));
        assert(fz == 10 * fz1) by (nonlinear_arith)
            requires
                pow10(z) == 10 * pow10((z - 1) as nat),
                fz == v * pow10(z),
                fz1 == v * pow10((z - 1) as nat),
        ;
        assert(fz % 10 == 0 && fz / 10 == fz1) by (nonlinear_arith)
            requires
                fz == 10 * fz1,
        ;
        assert(pad_seq(fz, w).last() == digit_char(fz % 10));
        assert(pad_seq(fz, w).drop_last() =~= pad_seq(fz / 10, (w - 1) as nat));
        lemma_strip_pad(v, (z - 1) as nat, (w - 1) as nat);
    }
}

pub(crate) fn digit_str(d: u8) -> (r: &'static str)
    requires
        d < 10,
    ensures
        r@ == seq![digit_char(d as nat)],
{
    if d == 0 {
        proof {
            reveal_strlit("0");
            assert("0"@ =~= seq![digit_char(0 as nat)]);
        }
        "0"
    } else if d == 1 {
        proof {
            reveal_strlit("1");
            assert("1"@ =~= seq![digit_char(1 as nat)]);
        }
        "1"
    } else if d == 2 {
        proof {
            reveal_strlit("2");
            assert("2"@ =~= seq![digit_char(2 as nat)]);
        }
        "2"
    } else if d == 3 {
        proof {
            reveal_strlit("3");
            assert("3"@ =~= seq![digit_char(3 as nat)]);
        }
        "3"
    } else if d == 4 {
        proof {
            reveal_strlit("4");
            assert("4"@ =~= seq![digit_char(4 as nat)]);
        }
        "4"
    } else if d == 5 {
        proof {
            reveal_strlit("5");
            assert("5"@ =~= seq![digit_char(5 as nat)]);
        }
        "5"
    } else if d == 6 {
        proof {
            reveal_strlit("6");
            assert("6"@ =~= seq![digit_char(6 as nat)]);
        }
        "6"
    } else if d == 7 {
        proof {
            reveal_strlit("7");
            assert("7"@ =~= seq![digit_char(7 as nat)]);
        }
        "7"
    } else if d == 8 {
        proof {
            reveal_strlit("8");
            assert("8"@ =~= seq![digit_char(8 as nat)]);
        }
        "8"
    } else {
        proof {
            reveal_strlit("9");
            assert("9"@ =~= seq![digit_char(9 as nat)]);
        }
        "9"
    }
}

/// The value of a digit character.
pub(crate) fn digit_value_of(c: char) -> (d: u8)
    requires
        is_digit_char(c),
    ensures
        d < 10,
        digit_val(c) == d as nat,
        digit_char(d as nat) == c,
{
    if c == '0' {
        0
    } else if c == '1' {
        1
    } else if c == '2' {
        2
    } else if c == '3' {
        3
    } else if c == '4' {
        4
    } else if c == '5' {
        5
    } else if c == '6' {
        6
    } else if c == '7' {
        7
    } else if c == '8' {
        8
    } else {
        9
    }
}

/// `10^e` for small exponents.
pub(crate) fn pow10_u(e: u8) -> (r: u128)
    requires
        e <= 9,
    ensures
        r as nat == pow10(e as nat),
{
    proof {
        reveal_with_fuel(pow10, 11);
    }
    if e == 0 {
        1
    } else if e == 1 {
        10
    } else if e == 2 {
        100
    } else if e == 3 {
        1_000
    } else if e == 4 {
        10_000
    } else if e == 5 {
        100_000
    } else if e == 6 {
        1_000_000
    } else if e == 7 {
        10_000_000
    } else if e == 8 {
        100_000_000
    } else {
        1_000_000_000
    }
}

fn push_dec(s: &mut String, n: u128)
    ensures
        final(s)@ == old(s)@ + dec_seq(n as nat),
    decreases n,
{
    if n >= 10 {
        push_dec(s, n / 10);
        s.append(digit_str((n % 10) as u8));
        proof {
            assert(s@ =~= old(s)@ + dec_seq(n as nat));
        }
    } else {
        s.append(digit_str(n as u8));
        proof {
            assert(s@ =~= old(s)@ + dec_seq(n as nat));
        }
    }
}

fn push_pad(s: &mut String, n: u128, w: u8)
    requires
        (n as nat) < pow10(w as nat),
    ensures
        final(s)@ == old(s)@ + pad_seq(n as nat, w as nat),
    decreases w,
{
    if w > 0 {
        proof {
            assert(pow10(w as nat) == 10 * pow10((w - 1) as nat));
            vstd::arithmetic::div_mod::lemma_multiply_divide_lt(
                n as int,
                pow10((w - 1) as nat) as int,
                10,
            );
        }
        push_pad(s, n / 10, w - 1);
        s.append(digit_str((n % 10) as u8));
        proof {
            assert(s@ =~= old(s)@ + pad_seq(n as nat, w as nat));
        }
    } else {
        proof {
            assert(s@ =~= old(s)@ + pad_seq(n as nat, 0));
        }
    }
}

/// Renders a mantissa of sign `neg` and magnitude `mag` as its
/// canonical numeral, and reports how many digits follow the point.
pub fn format_mantissa(neg: bool, mag: u128) -> (r: (String, Option<usize>))
    requires
        mag <= MAX_MAG,
        neg ==> mag > 0,
    ensures
        r.0@ == numeral_of(signed_mantissa(neg, mag as nat)),
        match r.1 {
            Some(k) => frac_of(signed_mantissa(neg, mag as nat)) == Some(k as nat),
            None => frac_of(signed_mantissa(neg, mag as nat)) is None,
        },
{
    let ghost m = signed_mantissa(neg, mag as nat);
    proof {
        assert(mag_of(m) == mag as nat);
    }
    let mut s = String::new();
    if neg {
        proof {
            reveal_strlit("-");
        }
        s.append("-");
        proof {
            assert(s@ =~= seq!['-']);
        }
    }
    let ghost sign = s@;
    let ip = mag / SCALE_U;
    let f = mag % SCALE_U;
    push_dec(&mut s, ip);
    if f == 0 {
        proof {
            assert(s@ =~= numeral_of(m));
        }
        (s, None)
    } else {
        proof {
            reveal_strlit(".");
        }
        s.append(".");
        proof {
            assert(s@ =~= sign + dec_seq(ip as nat) + seq!['.']);
            lemma_pow10_vals();
        }
        let mut v = f;
        let mut z: u8 = 0;
        proof {
            assert((f as nat) * pow10(0) == f as nat) by (nonlinear_arith)
                requires
                    pow10(0) == 1,
            ;
        }
        while v % 10 == 0
            invariant
                v >= 1,
                f as nat == (v as nat) * pow10(z as nat),
                f < SCALE_U,
            decreases v,
        {
            proof {
                assert(z as nat <= 9) by {
                    lemma_pow10_vals();
                    if z as nat >= 10 {
                        lemma_pow10_mono(10, z as nat);
                        assert((v as nat) * pow10(z as nat) >= pow10(z as nat))
                            by (nonlinear_arith)
                            requires
                                v as nat >= 1,
                                pow10(z as nat) >= 0,
                        ;
                    }
                };
                assert(v >= 10);
                assert(pow10(z as nat + 1) == 10 * pow10(z as nat));
                assert((v as nat / 10) * pow10(z as nat + 1) == (v as nat) * pow10(z as nat))
                    by (nonlinear_arith)
                    requires
                        v as nat % 10 == 0,
                        pow10(z as nat + 1) == 10 * pow10(z as nat),
                ;
            }
            v = v / 10;
            z = z + 1;
        }
        proof {
            lemma_pow10_vals();
            assert(z as nat <= 9) by {
                if z as nat >= 10 {
                    lemma_pow10_mono(10, z as nat);
                    assert((v as nat) * pow10(z as nat) >= pow10(z as nat)) by (nonlinear_arith)
                        requires
                            v as nat >= 1,
                            pow10(z as nat) >= 0,
                    ;
                }
            };
            lemma_pow10_adds((10 - z as nat) as nat, z as nat);
            assert((v as nat) < pow10((10 - z as nat) as nat)) by (nonlinear_arith)
                requires
                    (v as nat) * pow10(z as nat) < pow10((10 - z as nat) as nat) * pow10(
                        z as nat,
                    ),
                    pow10(z as nat) >= 1,
            ;
        }
        let w = 10 - z;
        push_pad(&mut s, v, w);
        proof {
            lemma_strip_pad(v as nat, z as nat, 10);
            lemma_pad_seq(v as nat, (10 - z as nat) as nat);
            assert(s@ =~= numeral_of(m));
        }
        (s, Some(w as usize))
    }
}

} // verus!
