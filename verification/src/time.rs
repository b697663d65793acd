//! LiveSplit durations (`[-][d.]hh:mm:ss[.fffffffff]`) and LibreSplit durations
//! (`[-]hh:mm:ss.ffffff`).

use vstd::prelude::*;
use crate::text::{find_char, first_index_of, is_unicode_whitespace, lemma_first_index_absent, lemma_first_index_found, lemma_first_index_bounds, lemma_split_once_at, slice_chars, split_once, trim, trim_chars};

verus! {

/// An ASCII decimal digit.
pub open spec fn is_digit(c: char) -> bool {
    48 <= (c as u32) <= 57
}

pub open spec fn digit_value(c: char) -> int {
    (c as u32) - 48
}

pub open spec fn digit_char(d: int) -> char {
    (d + 48) as char
}

/// The value of a string of decimal digits, most significant first.
pub open spec fn decimal_value(s: Seq<char>) -> int
    decreases s.len(),
{
    if s.len() == 0 {
        0
    } else {
        decimal_value(s.drop_last()) * 10 + digit_value(s.last())
    }
}

pub open spec fn all_digits(s: Seq<char>) -> bool {
    forall|i: int| 0 <= i < s.len() ==> is_digit(#[trigger] s[i])
}

/// A non-empty run of ASCII digits read as a number (of any size).
pub open spec fn spec_number(s: Seq<char>) -> Option<int> {
    if s.len() > 0 && all_digits(s) {
        Some(decimal_value(s))
    } else {
        None
    }
}

pub open spec fn pow10(n: nat) -> int
    decreases n,
{
    if n == 0 {
        1
    } else {
        10 * pow10((n - 1) as nat)
    }
}

/// The hours field: `hours`, or `days.hours` with fewer than 24 hours.
/// The result is (days, hours).
pub open spec fn clock_hours(p: Seq<char>) -> Option<(int, int)> {
    match split_once(p, '.') {
        Some((days, hours)) => match (spec_number(days), spec_number(hours)) {
            (Some(d), Some(h)) => if h < 24 {
                Some((d, h))
            } else {
                None
            },
            _ => None,
        },
        None => match spec_number(p) {
            Some(h) => Some((0, h)),
            None => None,
        },
    }
}

/// The seconds field: `seconds` or `seconds.fraction` with at most nine fraction digits.
/// The result is (seconds, nanoseconds).
pub open spec fn clock_seconds(p: Seq<char>) -> Option<(int, int)> {
    match split_once(p, '.') {
        Some((secs, fraction)) => if fraction.len() > 9 {
            None
        } else {
            match (spec_number(secs), spec_number(fraction)) {
                (Some(s), Some(f)) => Some((s, f * pow10((9 - fraction.len()) as nat))),
                _ => None,
            }
        },
        None => match spec_number(p) {
            Some(s) => Some((s, 0)),
            None => None,
        },
    }
}

/// The largest number of microseconds a duration may hold.
pub open spec fn micros_limit() -> int {
    i64::MAX as int
}

/// A LiveSplit duration in nanoseconds: the text, trimmed, is an optional `-` and then
/// `hours:minutes:seconds`, where hours may be `days.hours` (hours below 24), minutes and
/// seconds are below 60, seconds may carry up to nine fraction digits, and the whole
/// duration stays below `i64::MAX` microseconds.
pub open spec fn spec_parse_time(text: Seq<char>) -> Option<int> {
    let t = trim(text);
    let negative = t.len() > 0 && t[0] == '-';
    let body = if negative {
        t.drop_first()
    } else {
        t
    };
    match split_once(body, ':') {
        None => None,
        Some((hours_part, rest)) => match split_once(rest, ':') {
            None => None,
            Some((minutes_part, seconds_part)) => if first_index_of(seconds_part, ':') is Some {
                None
            } else {
                match (
                    clock_hours(hours_part),
                    spec_number(minutes_part),
                    clock_seconds(seconds_part),
                ) {
                    (Some((d, h)), Some(m), Some((s, ns))) => if m >= 60 || s >= 60 {
                        None
                    } else {
                        let total = (((d * 24 + h) * 60 + m) * 60 + s) * 1_000_000_000 + ns;
                        if total / 1000 >= micros_limit() {
                            None
                        } else if negative {
                            Some(-total)
                        } else {
                            Some(total)
                        }
                    },
                    _ => None,
                }
            },
        },
    }
}

/// The decimal digits of `n`, without leading zeros.
pub open spec fn decimal_digits(n: nat) -> Seq<char>
    decreases n,
{
    if n < 10 {
        seq![digit_char(n as int)]
    } else {
        decimal_digits(n / 10).push(digit_char((n % 10) as int))
    }
}

/// `format!("{n:0width$}")`: the decimal digits of `n`, left-padded with zeros to `width`.
pub open spec fn zero_padded(n: nat, width: nat) -> Seq<char> {
    let d = decimal_digits(n);
    if d.len() < width {
        Seq::new((width - d.len()) as nat, |i: int| '0') + d
    } else {
        d
    }
}

pub open spec fn abs(n: int) -> nat {
    if n < 0 {
        (-n) as nat
    } else {
        n as nat
    }
}

/// A LibreSplit duration: the nanoseconds truncated toward zero to whole microseconds,
/// written `hh:mm:ss.ffffff` (hours may have more digits), with a `-` only when the
/// truncated value is negative.
pub open spec fn spec_format_time(nanos: int) -> Seq<char> {
    let micros = abs(nanos) / 1000;
    let sign = if nanos < 0 && micros > 0 {
        seq!['-']
    } else {
        Seq::<char>::empty()
    };
    let total_seconds = micros / 1_000_000;
    sign + zero_padded(total_seconds / 3600, 2) + seq![':'] + zero_padded(
        (total_seconds / 60) % 60,
        2,
    ) + seq![':'] + zero_padded(total_seconds % 60, 2) + seq!['.'] + zero_padded(
        micros % 1_000_000,
        6,
    )
}

/// The text LibreSplit shows for a missing time.
pub open spec fn missing_time() -> Seq<char> {
    seq!['-']
}

/// A LiveSplit duration rewritten as a LibreSplit duration, or `-` when it does not parse.
pub open spec fn spec_convert_time(text: Seq<char>) -> Seq<char> {
    match spec_parse_time(text) {
        Some(n) => spec_format_time(n),
        None => missing_time(),
    }
}


pub proof fn lemma_decimal_value_nonneg(s: Seq<char>)
    requires
        all_digits(s),
    ensures
        decimal_value(s) >= 0,
    decreases s.len(),
{
    if s.len() > 0 {
        assert(all_digits(s.drop_last())) by {
            assert forall|i: int| 0 <= i < s.drop_last().len() implies is_digit(
                #[trigger] s.drop_last()[i],
            ) by {
                assert(s.drop_last()[i] == s[i]);
            }
        }
        lemma_decimal_value_nonneg(s.drop_last());
        assert(is_digit(s[s.len() - 1]));
    }
}

pub proof fn lemma_pow10_positive(n: nat)
    ensures
        pow10(n) >= 1,
    decreases n,
{
    if n > 0 {
        lemma_pow10_positive((n - 1) as nat);
    }
}

pub proof fn lemma_pow10_add(a: nat, b: nat)
    ensures
        pow10(a + b) == pow10(a) * pow10(b),
    decreases a,
{
    if a > 0 {
        lemma_pow10_add((a - 1) as nat, b);
        let x = pow10((a - 1) as nat);
        let y = pow10(b);
        assert(pow10(a + b) == 10 * pow10((a - 1 + b) as nat));
        assert(pow10(a) == 10 * x);
        assert(10 * (x * y) == (10 * x) * y) by (nonlinear_arith);
    }
}

/// A run of `n` digits is worth less than `10^n`.
pub proof fn lemma_decimal_value_bound(s: Seq<char>)
    requires
        all_digits(s),
    ensures
        0 <= decimal_value(s) < pow10(s.len()),
    decreases s.len(),
{
    if s.len() > 0 {
        assert(all_digits(s.drop_last())) by {
            assert forall|i: int| 0 <= i < s.drop_last().len() implies is_digit(
                #[trigger] s.drop_last()[i],
            ) by {
                assert(s.drop_last()[i] == s[i]);
            }
        }
        lemma_decimal_value_bound(s.drop_last());
        assert(is_digit(s[s.len() - 1]));
        let v = decimal_value(s.drop_last());
        let p = pow10(s.drop_last().len());
        assert(v * 10 + digit_value(s.last()) < p * 10) by (nonlinear_arith)
            requires
                0 <= v < p,
                0 <= digit_value(s.last()) <= 9,
        ;
    }
}

/// Appending digits never makes a digit string worth less.
pub proof fn lemma_decimal_prefix_monotone(s: Seq<char>, k: int, m: int)
    requires
        all_digits(s),
        0 <= k <= m <= s.len(),
    ensures
        decimal_value(s.take(k)) <= decimal_value(s.take(m)),
    decreases m - k,
{
    if k < m {
        lemma_decimal_prefix_monotone(s, k, m - 1);
        let t = s.take(m);
        assert(t.drop_last() == s.take(m - 1));
        assert(all_digits(s.take(m - 1))) by {
            assert forall|i: int| 0 <= i < s.take(m - 1).len() implies is_digit(
                #[trigger] s.take(m - 1)[i],
            ) by {
                assert(s.take(m - 1)[i] == s[i]);
            }
        }
        lemma_decimal_value_nonneg(s.take(m - 1));
        assert(is_digit(s[m - 1]));
        assert(t.last() == s[m - 1]);
    }
}

pub proof fn lemma_pow10_nine()
    ensures
        pow10(9) == 1_000_000_000,
{
    reveal_with_fuel(pow10, 10);
}

/// `10^n` for a small `n`.
pub fn pow10_u64(n: usize) -> (res: u64)
    requires
        n <= 9,
    ensures
        res == pow10(n as nat),
        res <= 1_000_000_000,
{
    let mut r: u64 = 1;
    let mut i: usize = 0;
    proof {
        lemma_pow10_nine();
    }
    while i < n
        invariant
            i <= n <= 9,
            r == pow10(i as nat),
            pow10(i as nat) * pow10((9 - i) as nat) == 1_000_000_000int,
        decreases n - i,
    {
        proof {
            lemma_pow10_positive((8 - i) as nat);
            assert(pow10((9 - i) as nat) == 10 * pow10((8 - i) as nat));
            assert(r * 10 <= 1_000_000_000) by (nonlinear_arith)
                requires
                    r * (10 * pow10((8 - i) as nat)) == 1_000_000_000int,
                    pow10((8 - i) as nat) >= 1,
            ;
            assert((r * 10) * pow10((8 - i) as nat) == 1_000_000_000int) by (nonlinear_arith)
                requires
                    r * (10 * pow10((8 - i) as nat)) == 1_000_000_000int,
            ;
        }
        r = r * 10;
        i = i + 1;
    }
    proof {
        lemma_pow10_positive((9 - n) as nat);
        assert(r <= 1_000_000_000) by (nonlinear_arith)
            requires
                r * pow10((9 - n) as nat) == 1_000_000_000int,
                pow10((9 - n) as nat) >= 1,
                r >= 0,
        ;
    }
    r
}

/// A non-empty run of ASCII digits read as a `u64`; `None` when it is not such a run or
/// when it is worth more than `u64::MAX`.
pub fn parse_number(s: &[char]) -> (res: Option<u64>)
    ensures
        match res {
            Some(v) => spec_number(s@) == Some(v as int),
            None => match spec_number(s@) {
                Some(v) => v > u64::MAX,
                None => true,
            },
        },
{
    if s.len() == 0 {
        return None;
    }
    let mut i: usize = 0;
    while i < s.len()
        invariant
            i <= s@.len(),
            forall|j: int| 0 <= j < i ==> is_digit(#[trigger] s@[j]),
        decreases s@.len() - i,
    {
        let u = s[i] as u32;
        if u < 48 || u > 57 {
            return None;
        }
        i = i + 1;
    }
    assert(all_digits(s@));
    let mut acc: u64 = 0;
    i = 0;
    while i < s.len()
        invariant
            i <= s@.len(),
            all_digits(s@),
            acc == decimal_value(s@.take(i as int)),
        decreases s@.len() - i,
    {
        assert(is_digit(s@[i as int]));
        let d = (s[i] as u32 - 48) as u64;
        proof {
            assert(s@.take(i + 1).drop_last() == s@.take(i as int));
            assert(s@.take(i + 1).last() == s@[i as int]);
        }
        if acc > (u64::MAX - d) / 10 {
            proof {
                assert(acc * 10 + d > u64::MAX) by (nonlinear_arith)
                    requires
                        acc > (u64::MAX - d) / 10,
                        d <= 9,
                ;
                lemma_decimal_prefix_monotone(s@, i + 1, s@.len() as int);
                assert(s@.take(s@.len() as int) == s@);
            }
            return None;
        }
        proof {
            assert(acc * 10 + d <= u64::MAX) by (nonlinear_arith)
                requires
                    acc <= (u64::MAX - d) / 10,
                    d <= 9,
            ;
        }
        acc = acc * 10 + d;
        i = i + 1;
    }
    assert(s@.take(s@.len() as int) == s@);
    Some(acc)
}


/// The hours field as (days, hours); `None` when it is malformed or too large for `u64`s.
fn parse_hours_field(p: &[char]) -> (res: Option<(u64, u64)>)
    ensures
        match res {
            Some((d, h)) => clock_hours(p@) == Some((d as int, h as int)),
            None => match clock_hours(p@) {
                Some((d, h)) => d * 24 + h > u64::MAX,
                None => true,
            },
        },
{
    match find_char(p, '.') {
        Some(i) => {
            proof {
                lemma_split_once_at(p@, '.', i as int);
            }
            let n = p.len();
            let days = slice_chars(p, 0, i);
            let hours = slice_chars(p, i + 1, n);
            let dv = parse_number(days.as_slice());
            let hv = parse_number(hours.as_slice());
            proof {
                if let Some(d) = spec_number(days@) {
                    lemma_decimal_value_nonneg(days@);
                }
            }
            match (dv, hv) {
                (Some(d), Some(h)) => if h < 24 {
                    Some((d, h))
                } else {
                    None
                },
                _ => None,
            }
        },
        None => {
            proof {
                lemma_first_index_bounds(p@, '.');
            }
            match parse_number(p) {
                Some(h) => Some((0, h)),
                None => {
                    proof {
                        if let Some(h) = spec_number(p@) {
                            lemma_decimal_value_nonneg(p@);
                        }
                    }
                    None
                },
            }
        },
    }
}

/// The seconds field as (seconds, nanoseconds); `None` when it is malformed or its
/// seconds are too large for a `u64`.
fn parse_seconds_field(p: &[char]) -> (res: Option<(u64, u64)>)
    ensures
        match res {
            Some((s, ns)) => clock_seconds(p@) == Some((s as int, ns as int)) && ns < 1_000_000_000,
            None => match clock_seconds(p@) {
                Some((s, ns)) => s > u64::MAX,
                None => true,
            },
        },
{
    match find_char(p, '.') {
        Some(i) => {
            proof {
                lemma_split_once_at(p@, '.', i as int);
            }
            let n = p.len();
            let secs = slice_chars(p, 0, i);
            let fraction = slice_chars(p, i + 1, n);
            if fraction.len() > 9 {
                return None;
            }
            let sv = parse_number(secs.as_slice());
            let fv = parse_number(fraction.as_slice());
            proof {
                if let Some(f) = spec_number(fraction@) {
                    lemma_decimal_value_bound(fraction@);
                    lemma_pow10_add(fraction@.len(), (9 - fraction@.len()) as nat);
                    lemma_pow10_nine();
                    lemma_pow10_positive(fraction@.len());
                    lemma_pow10_positive((9 - fraction@.len()) as nat);
                    assert(f < 1_000_000_000) by (nonlinear_arith)
                        requires
                            f < pow10(fraction@.len()),
                            pow10(fraction@.len()) * pow10((9 - fraction@.len()) as nat)
                                == 1_000_000_000int,
                            pow10((9 - fraction@.len()) as nat) >= 1,
                            pow10(fraction@.len()) >= 1,
                    ;
                }
            }
            match (sv, fv) {
                (Some(s), Some(f)) => {
                    let scale = pow10_u64(9 - fraction.len());
                    assert(scale == pow10((9 - fraction@.len()) as nat));
                    assert(spec_number(fraction@) == Some(f as int));
                    assert(spec_number(secs@) == Some(s as int));
                    proof {
                        assert(f * scale < 1_000_000_000) by (nonlinear_arith)
                            requires
                                f < pow10(fraction@.len()),
                                pow10(fraction@.len()) * scale == 1_000_000_000int,
                                scale >= 1,
                        ;
                    }
                    assert(split_once(p@, '.') == Some((secs@, fraction@)));
                    assert(clock_seconds(p@) == Some((s as int, f * pow10((9 - fraction@.len()) as nat))));
                    let ns = f * scale;
                    assert(ns < 1_000_000_000);
                    assert(clock_seconds(p@) == Some((s as int, ns as int)));
                    Some((s, ns))
                },
                _ => None,
            }
        },
        None => {
            proof {
                lemma_first_index_bounds(p@, '.');
            }
            match parse_number(p) {
                Some(s) => {
                    assert(clock_seconds(p@) == Some((s as int, 0int)));
                    Some((s, 0))
                },
                None => None,
            }
        },
    }
}

/// A large hours field makes the duration too long.
proof fn lemma_total_too_large(d: int, h: int, m: int, s: int, ns: int)
    requires
        d >= 0,
        h >= 0,
        m >= 0,
        s >= 0,
        ns >= 0,
        d * 24 + h > u64::MAX,
    ensures
        ((((d * 24 + h) * 60 + m) * 60 + s) * 1_000_000_000 + ns) / 1000 >= micros_limit(),
{
    let x = d * 24 + h;
    assert((((x * 60 + m) * 60 + s) * 1_000_000_000 + ns) / 1000 >= i64::MAX) by (nonlinear_arith)
        requires
            x > u64::MAX,
            m >= 0,
            s >= 0,
            ns >= 0,
    ;
}

proof fn lemma_number_nonneg(p: Seq<char>)
    ensures
        spec_number(p) matches Some(v) ==> v >= 0,
{
    if spec_number(p) is Some {
        lemma_decimal_value_nonneg(p);
    }
}

proof fn lemma_clock_nonneg(hours: Seq<char>, minutes: Seq<char>, seconds: Seq<char>)
    ensures
        clock_hours(hours) matches Some((d, h)) ==> d >= 0 && h >= 0,
        spec_number(minutes) matches Some(m) ==> m >= 0,
        clock_seconds(seconds) matches Some((s, ns)) ==> s >= 0 && ns >= 0,
{
    lemma_number_nonneg(hours);
    lemma_number_nonneg(minutes);
    lemma_number_nonneg(seconds);
    if let Some((a, b)) = split_once(hours, '.') {
        lemma_number_nonneg(a);
        lemma_number_nonneg(b);
    }
    if let Some((a, b)) = split_once(seconds, '.') {
        lemma_number_nonneg(a);
        lemma_number_nonneg(b);
        lemma_pow10_positive((9 - b.len()) as nat);
        if let (Some(x), Some(y)) = (spec_number(a), spec_number(b)) {
            assert(y * pow10((9 - b.len()) as nat) >= 0) by (nonlinear_arith)
                requires
                    y >= 0,
                    pow10((9 - b.len()) as nat) >= 1,
            ;
        }
    }
}

/// A parsed duration holds fewer than `i64::MAX` microseconds either way.
pub proof fn lemma_parse_time_bounded(text: Seq<char>)
    ensures
        spec_parse_time(text) matches Some(v) ==> abs(v) / 1000 < micros_limit(),
{
    let t = trim(text);
    let negative = t.len() > 0 && t[0] == '-';
    let body = if negative {
        t.drop_first()
    } else {
        t
    };
    if let Some((hours_part, rest)) = split_once(body, ':') {
        if let Some((minutes_part, seconds_part)) = split_once(rest, ':') {
            lemma_clock_nonneg(hours_part, minutes_part, seconds_part);
            if let (Some((d, h)), Some(m), Some((s, ns))) = (
                clock_hours(hours_part),
                spec_number(minutes_part),
                clock_seconds(seconds_part),
            ) {
                assert((((d * 24 + h) * 60 + m) * 60 + s) * 1_000_000_000 + ns >= 0)
                    by (nonlinear_arith)
                    requires
                        d >= 0,
                        h >= 0,
                        m >= 0,
                        s >= 0,
                        ns >= 0,
                ;
            }
        }
    }
}

pub proof fn lemma_digit_char(k: int)
    requires
        0 <= k <= 9,
    ensures
        is_digit(digit_char(k)),
        digit_value(digit_char(k)) == k,
{
}

/// The digits of `n` are digits, at least one of them, worth `n`.
pub proof fn lemma_decimal_digits(n: nat)
    ensures
        decimal_digits(n).len() >= 1,
        all_digits(decimal_digits(n)),
        decimal_value(decimal_digits(n)) == n,
    decreases n,
{
    lemma_digit_char((n % 10) as int);
    if n >= 10 {
        lemma_decimal_digits(n / 10);
        let d = decimal_digits(n);
        assert(d.drop_last() == decimal_digits(n / 10));
        assert(d.last() == digit_char((n % 10) as int));
        assert(decimal_value(d) == decimal_value(d.drop_last()) * 10 + digit_value(d.last()));
        assert((n / 10) * 10 + n % 10 == n);
        assert forall|i: int| 0 <= i < d.len() implies is_digit(#[trigger] d[i]) by {
            if i < d.len() - 1 {
                assert(d[i] == decimal_digits(n / 10)[i]);
            }
        }
    } else {
        let d = decimal_digits(n);
        assert(d.drop_last() =~= Seq::<char>::empty());
        assert(n % 10 == n);
        assert(d.last() == digit_char(n as int));
        assert(decimal_value(d) == decimal_value(d.drop_last()) * 10 + digit_value(d.last()));
    }
}

/// `n < 10^k` has at most `k` digits.
pub proof fn lemma_decimal_digits_len(n: nat, k: nat)
    requires
        k >= 1,
        n < pow10(k),
    ensures
        decimal_digits(n).len() <= k,
    decreases n,
{
    if n >= 10 {
        assert(pow10(k) == 10 * pow10((k - 1) as nat));
        if k == 1 {
            assert(pow10(0) == 1);
        }
        lemma_decimal_digits_len(n / 10, (k - 1) as nat);
    }
}

/// The value of a concatenation of digit strings.
pub proof fn lemma_decimal_value_concat(a: Seq<char>, b: Seq<char>)
    ensures
        decimal_value(a + b) == decimal_value(a) * pow10(b.len()) + decimal_value(b),
    decreases b.len(),
{
    if b.len() == 0 {
        assert(a + b =~= a);
    } else {
        lemma_decimal_value_concat(a, b.drop_last());
        assert((a + b).drop_last() =~= a + b.drop_last());
        assert((a + b).last() == b.last());
        let x = decimal_value(a);
        let p = pow10(b.drop_last().len());
        let y = decimal_value(b.drop_last());
        assert(pow10(b.len()) == 10 * p);
        assert((x * p + y) * 10 == x * (10 * p) + y * 10) by (nonlinear_arith);
    }
}

/// A run of zeros is worth nothing.
pub proof fn lemma_zeros_value(k: nat)
    ensures
        decimal_value(Seq::new(k, |i: int| '0')) == 0,
        all_digits(Seq::new(k, |i: int| '0')),
    decreases k,
{
    if k > 0 {
        lemma_zeros_value((k - 1) as nat);
        assert(Seq::new(k, |i: int| '0').drop_last() =~= Seq::new((k - 1) as nat, |i: int| '0'));
    }
}

/// A zero-padded number is a digit string of at least `width` digits worth the number.
pub proof fn lemma_zero_padded(n: nat, width: nat)
    ensures
        zero_padded(n, width).len() >= 1,
        zero_padded(n, width).len() >= width,
        all_digits(zero_padded(n, width)),
        decimal_value(zero_padded(n, width)) == n,
{
    lemma_decimal_digits(n);
    let d = decimal_digits(n);
    if d.len() < width {
        let z = Seq::new((width - d.len()) as nat, |i: int| '0');
        lemma_zeros_value((width - d.len()) as nat);
        lemma_decimal_value_concat(z, d);
        assert(0 * pow10(d.len()) == 0);
        assert forall|i: int| 0 <= i < (z + d).len() implies is_digit(#[trigger] (z + d)[i]) by {
            if i < z.len() {
                assert((z + d)[i] == z[i]);
            } else {
                assert((z + d)[i] == d[i - z.len()]);
            }
        }
    }
}

/// A number below `10^width` padded to `width` digits takes exactly `width` digits.
pub proof fn lemma_zero_padded_len(n: nat, width: nat)
    requires
        width >= 1,
        n < pow10(width),
    ensures
        zero_padded(n, width).len() == width,
{
    lemma_decimal_digits_len(n, width);
}

/// A digit is neither a separator, a sign nor white space.
pub proof fn lemma_digit_not_special(c: char)
    requires
        is_digit(c),
    ensures
        c != ':',
        c != '.',
        c != '-',
        !is_unicode_whitespace(c),
{
}

/// A text that begins and ends with something other than white space is its own trim.
pub proof fn lemma_trim_fixed(s: Seq<char>)
    requires
        s.len() > 0,
        !is_unicode_whitespace(s[0]),
        !is_unicode_whitespace(s.last()),
    ensures
        trim(s) == s,
{
}

/// The first `c` of `a + [c] + b`, when `a` has no `c`, is at `a.len()`.
pub proof fn lemma_split_after(a: Seq<char>, c: char, b: Seq<char>)
    requires
        forall|i: int| 0 <= i < a.len() ==> a[i] != c,
    ensures
        split_once(a + seq![c] + b, c) == Some((a, b)),
{
    let s = a + seq![c] + b;
    assert forall|j: int| 0 <= j < a.len() implies s[j] != c by {
        assert(s[j] == a[j]);
    }
    lemma_first_index_found(s, c, a.len() as int);
    assert(s.take(a.len() as int) =~= a);
    assert(s.skip(a.len() as int + 1) =~= b);
}

/// The text written for hours, minutes, seconds and microseconds.
pub open spec fn clock_text(h: nat, m: nat, s: nat, u: nat) -> Seq<char> {
    zero_padded(h, 2) + seq![':'] + zero_padded(m, 2) + seq![':'] + zero_padded(s, 2) + seq!['.']
        + zero_padded(u, 6)
}

/// A digit string has no `c` that is not a digit.
proof fn lemma_digits_lack(s: Seq<char>, c: char)
    requires
        all_digits(s),
        !is_digit(c),
    ensures
        forall|i: int| 0 <= i < s.len() ==> s[i] != c,
{
    assert forall|i: int| 0 <= i < s.len() implies s[i] != c by {
        assert(is_digit(s[i]));
    }
}

/// Reading back a written clock gives its duration.
pub proof fn lemma_parse_clock_text(h: nat, m: nat, s: nat, u: nat, negative: bool)
    requires
        m < 60,
        s < 60,
        u < 1_000_000,
        (h * 3600 + m * 60 + s) * 1_000_000 + u < micros_limit(),
    ensures
        spec_parse_time(
            (if negative {
                seq!['-']
            } else {
                Seq::<char>::empty()
            }) + clock_text(h, m, s, u),
        ) == Some(
            if negative {
                -(((h * 3600 + m * 60 + s) * 1_000_000 + u) * 1000)
            } else {
                (((h * 3600 + m * 60 + s) * 1_000_000 + u) * 1000) as int
            },
        ),
{
    let hp = zero_padded(h, 2);
    let mp = zero_padded(m, 2);
    let sp = zero_padded(s, 2);
    let up = zero_padded(u, 6);
    lemma_zero_padded(h, 2);
    lemma_zero_padded(m, 2);
    lemma_zero_padded(s, 2);
    lemma_zero_padded(u, 6);
    lemma_pow10_nine();
    reveal_with_fuel(pow10, 7);
    lemma_zero_padded_len(u, 6);
    lemma_digits_lack(hp, ':');
    lemma_digits_lack(hp, '.');
    lemma_digits_lack(mp, ':');
    lemma_digits_lack(sp, ':');
    lemma_digits_lack(sp, '.');
    lemma_digits_lack(up, ':');
    let sign = if negative {
        seq!['-']
    } else {
        Seq::<char>::empty()
    };
    let body = clock_text(h, m, s, u);
    let text = sign + body;
    // the text is its own trim
    assert(is_digit(body[0])) by {
        assert(body[0] == hp[0]);
    }
    assert(is_digit(body.last())) by {
        assert(body.last() == up[up.len() - 1]);
    }
    lemma_digit_not_special(body[0]);
    lemma_digit_not_special(body.last());
    assert(text.last() == body.last());
    if negative {
        assert(text[0] == '-');
    } else {
        assert(text =~= body);
    }
    lemma_trim_fixed(text);
    assert(text.len() > 0 && text[0] == '-' <==> negative);
    if negative {
        assert(text.drop_first() =~= body);
    }
    // the fields
    let rest = mp + seq![':'] + sp + seq!['.'] + up;
    assert(body =~= hp + seq![':'] + rest);
    lemma_split_after(hp, ':', rest);
    let seconds = sp + seq!['.'] + up;
    assert(rest =~= mp + seq![':'] + seconds);
    lemma_split_after(mp, ':', seconds);
    assert forall|i: int| 0 <= i < seconds.len() implies seconds[i] != ':' by {
        if i < sp.len() {
            assert(seconds[i] == sp[i]);
        } else if i > sp.len() {
            assert(seconds[i] == up[i - sp.len() - 1]);
        }
    }
    lemma_first_index_absent(seconds, ':');
    lemma_first_index_absent(hp, '.');
    assert(clock_hours(hp) == Some((0int, h as int)));
    lemma_split_after(sp, '.', up);
    assert(clock_seconds(seconds) == Some((s as int, u * pow10(3))));
    assert(pow10(3) == 1000);
    assert((((0 * 24 + h) * 60 + m) * 60 + s) * 1_000_000_000 + u * 1000 == ((h * 3600 + m * 60 + s)
        * 1_000_000 + u) * 1000) by (nonlinear_arith);
}

/// A duration truncated toward zero to whole microseconds.
pub open spec fn truncated_to_micros(nanos: int) -> int {
    if nanos < 0 {
        -(abs(nanos) / 1000 * 1000)
    } else {
        (abs(nanos) / 1000 * 1000) as int
    }
}

/// Writing a duration and reading it back gives the duration truncated toward zero to
/// whole microseconds.
pub proof fn law_format_then_parse(nanos: int)
    requires
        abs(nanos) / 1000 < micros_limit(),
    ensures
        spec_parse_time(spec_format_time(nanos)) == Some(truncated_to_micros(nanos)),
{
    let micros = abs(nanos) / 1000;
    let ts = micros / 1_000_000;
    let h = ts / 3600;
    let m = (ts / 60) % 60;
    let s = ts % 60;
    let u = micros % 1_000_000;
    vstd::arithmetic::div_mod::lemma_fundamental_div_mod(micros as int, 1_000_000);
    vstd::arithmetic::div_mod::lemma_fundamental_div_mod(ts as int, 60);
    vstd::arithmetic::div_mod::lemma_fundamental_div_mod((ts / 60) as int, 60);
    vstd::arithmetic::div_mod::lemma_div_denominator(ts as int, 60, 60);
    assert(ts == h * 3600 + m * 60 + s) by (nonlinear_arith)
        requires
            ts == 60 * (ts / 60) + s,
            ts / 60 == 60 * ((ts / 60) / 60) + m,
            (ts / 60) / 60 == h,
    ;
    assert(micros == (h * 3600 + m * 60 + s) * 1_000_000 + u);
    let negative = nanos < 0 && micros > 0;
    let sign = if negative {
        seq!['-']
    } else {
        Seq::<char>::empty()
    };
    assert(spec_format_time(nanos) =~= sign + clock_text(h, m, s, u));
    lemma_parse_clock_text(h, m, s, u, negative);
}

/// Formatting keeps whole microseconds only: a duration and its truncation to microseconds
/// are written alike.
pub proof fn law_format_ignores_sub_microseconds(nanos: int)
    ensures
        spec_format_time(truncated_to_micros(nanos)) == spec_format_time(nanos),
{
    let t = truncated_to_micros(nanos);
    assert(abs(t) / 1000 == abs(nanos) / 1000);
}

/// Converting an already converted duration changes nothing.
pub proof fn law_convert_time_idempotent(text: Seq<char>)
    ensures
        spec_convert_time(spec_convert_time(text)) == spec_convert_time(text),
{
    match spec_parse_time(text) {
        Some(n) => {
            lemma_parse_time_bounded(text);
            law_format_then_parse(n);
            let t = truncated_to_micros(n);
            law_format_ignores_sub_microseconds(n);
        },
        None => {
            let dash = missing_time();
            lemma_trim_fixed(dash);
            assert(dash.drop_first() =~= Seq::<char>::empty());
            lemma_first_index_absent(Seq::<char>::empty(), ':');
        },
    }
}

/// Reading the `[-]hh:mm:ss.f` text of digit runs gives its duration, for any fraction of
/// one to nine digits: the fraction's digits are tenths, hundredths, ... of a second down
/// to nanoseconds.
pub proof fn law_parse_clock_with_fraction(
    negative: bool,
    hs: Seq<char>,
    ms: Seq<char>,
    ss: Seq<char>,
    f: Seq<char>,
)
    requires
        hs.len() > 0 && all_digits(hs),
        ms.len() > 0 && all_digits(ms),
        ss.len() > 0 && all_digits(ss),
        1 <= f.len() <= 9 && all_digits(f),
        decimal_value(ms) < 60,
        decimal_value(ss) < 60,
        (((decimal_value(hs) * 60 + decimal_value(ms)) * 60 + decimal_value(ss)) * 1_000_000_000
            + decimal_value(f) * pow10((9 - f.len()) as nat)) / 1000 < micros_limit(),
    ensures
        ({
            let total = ((decimal_value(hs) * 60 + decimal_value(ms)) * 60 + decimal_value(ss))
                * 1_000_000_000 + decimal_value(f) * pow10((9 - f.len()) as nat);
            spec_parse_time(
                (if negative {
                    seq!['-']
                } else {
                    Seq::<char>::empty()
                }) + hs + seq![':'] + ms + seq![':'] + ss + seq!['.'] + f,
            ) == Some(
                if negative {
                    -total
                } else {
                    total
                },
            )
        }),
{
    lemma_digits_lack(hs, ':');
    lemma_digits_lack(hs, '.');
    lemma_digits_lack(ms, ':');
    lemma_digits_lack(ss, ':');
    lemma_digits_lack(ss, '.');
    lemma_digits_lack(f, ':');
    let sign = if negative {
        seq!['-']
    } else {
        Seq::<char>::empty()
    };
    let seconds = ss + seq!['.'] + f;
    let rest = ms + seq![':'] + seconds;
    let body = hs + seq![':'] + rest;
    let text = sign + body;
    assert(text =~= sign + hs + seq![':'] + ms + seq![':'] + ss + seq!['.'] + f);
    assert(body[0] == hs[0]);
    assert(body.last() == f.last());
    assert(is_digit(f[f.len() - 1]));
    lemma_digit_not_special(body[0]);
    lemma_digit_not_special(body.last());
    assert(text.last() == body.last());
    if negative {
        assert(text[0] == '-');
        assert(text.drop_first() =~= body);
    } else {
        assert(text =~= body);
    }
    lemma_trim_fixed(text);
    lemma_split_after(hs, ':', rest);
    lemma_split_after(ms, ':', seconds);
    assert forall|i: int| 0 <= i < seconds.len() implies seconds[i] != ':' by {
        if i < ss.len() {
            assert(seconds[i] == ss[i]);
        } else if i > ss.len() {
            assert(seconds[i] == f[i - ss.len() - 1]);
        }
    }
    lemma_first_index_absent(seconds, ':');
    lemma_first_index_absent(hs, '.');
    lemma_split_after(ss, '.', f);
    lemma_decimal_value_nonneg(hs);
    lemma_decimal_value_nonneg(ms);
    lemma_decimal_value_nonneg(ss);
    lemma_decimal_value_nonneg(f);
    lemma_pow10_positive((9 - f.len()) as nat);
    let h = decimal_value(hs);
    assert(clock_hours(hs) == Some((0int, h)));
    assert(clock_seconds(seconds) == Some((decimal_value(ss), decimal_value(f) * pow10((9 - f.len()) as nat))));
    assert(0 * 24 + h == h);
}

/// A converted duration reads back as the parsed duration truncated to whole
/// microseconds, whatever its size: converting keeps the hours, minutes and seconds.
pub proof fn law_convert_reads_back(text: Seq<char>)
    ensures
        spec_parse_time(text) matches Some(n) ==> spec_parse_time(spec_convert_time(text)) == Some(
            truncated_to_micros(n),
        ),
        spec_parse_time(text) matches Some(n) ==> spec_convert_time(text) == spec_format_time(n),
        spec_parse_time(text) is None ==> spec_convert_time(text) == missing_time(),
{
    lemma_parse_time_bounded(text);
    if let Some(n) = spec_parse_time(text) {
        law_format_then_parse(n);
    }
}

/// Reads a LiveSplit duration from its characters.
pub fn parse_duration(text: &[char]) -> (res: Option<i128>)
    ensures
        match res {
            Some(v) => spec_parse_time(text@) == Some(v as int),
            None => spec_parse_time(text@) is None,
        },
{
    let t = trim_chars(text);
    let negative = t.len() > 0 && t[0] == '-';
    let body = if negative {
        slice_chars(t.as_slice(), 1, t.len())
    } else {
        t
    };
    assert(negative ==> body@ == trim(text@).drop_first());
    let i1 = match find_char(body.as_slice(), ':') {
        Some(i) => i,
        None => return None,
    };
    proof {
        lemma_split_once_at(body@, ':', i1 as int);
    }
    let hours_part = slice_chars(body.as_slice(), 0, i1);
    let rest = slice_chars(body.as_slice(), i1 + 1, body.len());
    let i2 = match find_char(rest.as_slice(), ':') {
        Some(i) => i,
        None => return None,
    };
    proof {
        lemma_split_once_at(rest@, ':', i2 as int);
    }
    let minutes_part = slice_chars(rest.as_slice(), 0, i2);
    let seconds_part = slice_chars(rest.as_slice(), i2 + 1, rest.len());
    if find_char(seconds_part.as_slice(), ':').is_some() {
        return None;
    }
    let hv = parse_hours_field(hours_part.as_slice());
    let mv = parse_number(minutes_part.as_slice());
    let sv = parse_seconds_field(seconds_part.as_slice());
    match (hv, mv, sv) {
        (Some((d, h)), Some(m), Some((s, ns))) => {
            if m >= 60 || s >= 60 {
                return None;
            }
            let hours_total: i128 = d as i128 * 24 + h as i128;
            assert(hours_total <= 25 * u64::MAX);
            let minutes_total: i128 = hours_total * 60 + m as i128;
            let seconds_total: i128 = minutes_total * 60 + s as i128;
            assert(seconds_total <= 25 * 3600 * u64::MAX + 3600) by (nonlinear_arith)
                requires
                    seconds_total == (hours_total * 60 + m) * 60 + s,
                    0 <= hours_total <= 25 * u64::MAX,
                    0 <= m < 60,
                    0 <= s < 60,
            ;
            let total: i128 = seconds_total * 1_000_000_000 + ns as i128;
            if total >= 1000 * (i64::MAX as i128) {
                return None;
            }
            if negative {
                Some(-total)
            } else {
                Some(total)
            }
        },
        _ => {
            proof {
                match (clock_hours(hours_part@), spec_number(minutes_part@), clock_seconds(seconds_part@)) {
                    (Some((d, h)), Some(m), Some((s, ns))) => {
                        lemma_clock_nonneg(hours_part@, minutes_part@, seconds_part@);
                        if hv is None {
                            lemma_total_too_large(d, h, m, s, ns);
                        }
                    },
                    _ => {},
                }
            }
            None
        },
    }
}


/// The character of a decimal digit.
fn digit_to_char(d: u8) -> (c: char)
    requires
        d <= 9,
    ensures
        c == digit_char(d as int),
{
    (48u8 + d) as char
}

/// Appends the decimal digits of `n`.
fn push_decimal(out: &mut Vec<char>, n: u128)
    ensures
        final(out)@ == old(out)@ + decimal_digits(n as nat),
    decreases n,
{
    if n >= 10 {
        push_decimal(out, n / 10);
    }
    out.push(digit_to_char((n % 10) as u8));
    proof {
        if n < 10 {
            assert(n % 10 == n);
        }
    }
}

/// Appends `n` in decimal, left-padded with zeros to `width` digits.
fn push_zero_padded(out: &mut Vec<char>, n: u128, width: usize)
    ensures
        final(out)@ == old(out)@ + zero_padded(n as nat, width as nat),
{
    let mut digits: Vec<char> = Vec::new();
    push_decimal(&mut digits, n);
    assert(digits@ == decimal_digits(n as nat));
    let ghost start = out@;
    if digits.len() < width {
        let mut k: usize = 0;
        while k < width - digits.len()
            invariant
                digits.len() < width,
                k <= width - digits.len(),
                out@ == start + Seq::new(k as nat, |i: int| '0'),
            decreases width - digits.len() - k,
        {
            out.push('0');
            k = k + 1;
            assert(out@ == start + Seq::new(k as nat, |i: int| '0'));
        }
    }
    let ghost mid = out@;
    let mut j: usize = 0;
    while j < digits.len()
        invariant
            j <= digits@.len(),
            out@ == mid + digits@.take(j as int),
        decreases digits@.len() - j,
    {
        out.push(digits[j]);
        j = j + 1;
        assert(digits@.take(j as int) == digits@.take(j - 1).push(digits@[j - 1]));
    }
    assert(digits@.take(digits@.len() as int) == digits@);
}

/// `nanos` formatted as a LibreSplit duration.
pub fn format_duration(nanos: i128) -> (res: Vec<char>)
    ensures
        res@ == spec_format_time(nanos as int),
{
    let magnitude: u128 = if nanos < 0 {
        (-(nanos + 1)) as u128 + 1
    } else {
        nanos as u128
    };
    assert(magnitude == abs(nanos as int));
    let micros = magnitude / 1000;
    let mut out: Vec<char> = Vec::new();
    if nanos < 0 && micros > 0 {
        out.push('-');
    }
    let total_seconds = micros / 1_000_000;
    push_zero_padded(&mut out, total_seconds / 3600, 2);
    out.push(':');
    push_zero_padded(&mut out, (total_seconds / 60) % 60, 2);
    out.push(':');
    push_zero_padded(&mut out, total_seconds % 60, 2);
    out.push('.');
    push_zero_padded(&mut out, micros % 1_000_000, 6);
    out
}

} // verus!
