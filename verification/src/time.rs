//! UTC date and time: Unix seconds to ISO-8601 text.
//!
//! The civil date of a day count is computed with Howard Hinnant's
//! `civil_from_days` algorithm and proved against the Gregorian calendar.
use vstd::prelude::*;

verus! {

/// Gregorian leap year.
pub open spec fn is_leap_year(y: int) -> bool {
    y % 4 == 0 && (y % 100 != 0 || y % 400 == 0)
}

/// Number of days of month `m` (1..=12) of year `y`.
pub open spec fn days_in_month(y: int, m: int) -> int {
    if m == 2 {
        if is_leap_year(y) {
            29
        } else {
            28
        }
    } else if m == 4 || m == 6 || m == 9 || m == 11 {
        30
    } else {
        31
    }
}

/// Days of year `y` before the first of month `m` (1..=12).
pub open spec fn days_before_month(y: int, m: int) -> int {
    let base: int = if m == 1 {
        0
    } else if m == 2 {
        31
    } else if m == 3 {
        59
    } else if m == 4 {
        90
    } else if m == 5 {
        120
    } else if m == 6 {
        151
    } else if m == 7 {
        181
    } else if m == 8 {
        212
    } else if m == 9 {
        243
    } else if m == 10 {
        273
    } else if m == 11 {
        304
    } else {
        334
    };
    base + if m > 2 && is_leap_year(y) {
        1int
    } else {
        0int
    }
}

/// Number of leap years among the years 1..=y (extended to all integers).
pub open spec fn leaps_through(y: int) -> int {
    y / 4 - y / 100 + y / 400
}

/// Days from 1970-01-01 to the first of January of year `y`.
pub open spec fn days_before_year(y: int) -> int {
    365 * (y - 1970) + leaps_through(y - 1) - leaps_through(1969)
}

/// Days from 1970-01-01 to the date `y-m-d`.
pub open spec fn days_from_civil(y: int, m: int, d: int) -> int {
    days_before_year(y) + days_before_month(y, m) + d - 1
}

/// `(y, m, d)` is a calendar date.
pub open spec fn valid_date(y: int, m: int, d: int) -> bool {
    1 <= m <= 12 && 1 <= d <= days_in_month(y, m)
}

/// Days from 0000-03-01 to the first day of the March-based year `k` of an
/// era (`0 <= k <= 400`).
pub open spec fn era_year_start(k: int) -> int {
    365 * k + k / 4 - k / 100 + k / 400
}

/// Day of a March-based year on which month index `mp` (0 = March) starts.
pub open spec fn month_start(mp: int) -> int {
    (153 * mp + 2) / 5
}

proof fn lemma_year_of_era(doe: u32, yoe: u32, y1: u32)
    by (bit_vector)
    requires
        doe < 146097u32,
        yoe == ((doe - doe / 1460u32 + doe / 36524u32 - doe / 146096u32) as u32) / 365u32,
        y1 == ((yoe + 1u32) as u32),
    ensures
        yoe < 400u32,
        ((365u32 * yoe + yoe / 4u32 - yoe / 100u32) as u32) <= doe,
        doe < ((365u32 * y1 + y1 / 4u32 - y1 / 100u32 + y1 / 400u32) as u32),
{
}

proof fn lemma_month_of_year(doy: u32, mp: u32, m1: u32)
    by (bit_vector)
    requires
        doy < 366u32,
        mp == ((5u32 * doy + 2u32) as u32) / 153u32,
        m1 == ((mp + 1u32) as u32),
    ensures
        mp < 12u32,
        ((153u32 * mp + 2u32) as u32) / 5u32 <= doy,
        doy < ((153u32 * m1 + 2u32) as u32) / 5u32,
{
}

/// The March-based day count of `y-m-d` (days since 0000-03-01) equals
/// 719468 plus the Unix day count.
proof fn lemma_march_count(y: int, m: int, d: int)
    requires
        1 <= m <= 12,
    ensures
        ({
            let yp = if m <= 2 {
                y - 1
            } else {
                y
            };
            let mp = if m > 2 {
                m - 3
            } else {
                m + 9
            };
            365 * yp + yp / 4 - yp / 100 + yp / 400 + month_start(mp) + d - 1
        }) == days_from_civil(y, m, d) + 719468,
{
    let yp = if m <= 2 {
        y - 1
    } else {
        y
    };
    lemma_leap_step(y);
    assert(leaps_through(1969) == 477);
    if m <= 2 {
        assert(leaps_through(y - 1) == yp / 4 - yp / 100 + yp / 400);
    } else {
        assert(leaps_through(y) == y / 4 - y / 100 + y / 400);
    }
}

/// Stepping the dividend by one steps the quotient exactly at multiples.
proof fn lemma_div_step(y: int, d: int)
    requires
        d > 0,
    ensures
        y / d == (y - 1) / d + if y % d == 0 {
            1int
        } else {
            0int
        },
{
    vstd::arithmetic::div_mod::lemma_fundamental_div_mod(y - 1, d);
    let q = (y - 1) / d;
    let r = (y - 1) % d;
    if r == d - 1 {
        assert(y == (q + 1) * d + 0) by (nonlinear_arith)
            requires
                y - 1 == d * q + r,
                r == d - 1,
        ;
        vstd::arithmetic::div_mod::lemma_fundamental_div_mod_converse(y, d, q + 1, 0);
    } else {
        assert(y == q * d + (r + 1)) by (nonlinear_arith)
            requires
                y - 1 == d * q + r,
        ;
        vstd::arithmetic::div_mod::lemma_fundamental_div_mod_converse(y, d, q, r + 1);
    }
}

/// A multiple of `a * b` is a multiple of `a`.
proof fn lemma_mod_factor(y: int, a: int, b: int)
    requires
        a > 0,
        b > 0,
        y % (a * b) == 0,
    ensures
        y % a == 0,
{
    assert(a * b > 0) by (nonlinear_arith)
        requires
            a > 0,
            b > 0,
    ;
    vstd::arithmetic::div_mod::lemma_fundamental_div_mod(y, a * b);
    let q = y / (a * b);
    assert(y == (q * b) * a + 0) by (nonlinear_arith)
        requires
            y == (a * b) * q + y % (a * b),
            y % (a * b) == 0,
    ;
    vstd::arithmetic::div_mod::lemma_fundamental_div_mod_converse(y, a, q * b, 0);
}

/// Passing from year `y - 1` to `y` adds one leap year exactly when `y` is
/// a leap year.
proof fn lemma_leap_step(y: int)
    ensures
        leaps_through(y) == leaps_through(y - 1) + if is_leap_year(y) {
            1int
        } else {
            0int
        },
{
    lemma_div_step(y, 4);
    lemma_div_step(y, 100);
    lemma_div_step(y, 400);
    if y % 400 == 0 {
        lemma_mod_factor(y, 100, 4);
    }
    if y % 100 == 0 {
        lemma_mod_factor(y, 4, 25);
    }
}

/// Smallest value of `days` accepted by `civil_from_days`.
pub open spec fn min_day() -> int {
    i64::MIN + 146097 * 2
}

/// Largest value of `days` accepted by `civil_from_days`.
pub open spec fn max_day() -> int {
    i64::MAX - 719468 - 146097 * 2
}

/// Howard Hinnant's `civil_from_days`: Unix epoch days to `(year, month, day)`.
pub fn civil_from_days(days: i64) -> (r: (i64, u64, u64))
    requires
        min_day() <= days <= max_day(),
    ensures
        valid_date(r.0 as int, r.1 as int, r.2 as int),
        days_from_civil(r.0 as int, r.1 as int, r.2 as int) == days,
{
    let z = days + 719468;
    let era = if z >= 0 {
        z
    } else {
        z - 146096
    } / 146097;
    assert(era == z / 146097) by {
        vstd::arithmetic::div_mod::lemma_fundamental_div_mod(z as int, 146097);
        if z < 0 {
            vstd::arithmetic::div_mod::lemma_fundamental_div_mod((z - 146096) as int, 146097);
        }
    }
    let doe = (z - era * 146097) as u64;
    assert(0 <= z - era * 146097 < 146097) by {
        vstd::arithmetic::div_mod::lemma_fundamental_div_mod(z as int, 146097);
    }
    let yoe = (doe - doe / 1460 + doe / 36524 - doe / 146096) / 365;
    proof {
        lemma_year_of_era(doe as u32, yoe as u32, (yoe + 1) as u32);
    }
    let y = yoe as i64 + era * 400;
    let doy = doe - (365 * yoe + yoe / 4 - yoe / 100);
    assert(era_year_start(yoe as int) <= doe < era_year_start(yoe + 1));
    assert(doy < 366);
    let mp = (5 * doy + 2) / 153;
    proof {
        lemma_month_of_year(doy as u32, mp as u32, (mp + 1) as u32);
    }
    let d = doy - (153 * mp + 2) / 5 + 1;
    let m = if mp < 10 {
        mp + 3
    } else {
        mp - 9
    };
    let y = if m <= 2 {
        y + 1
    } else {
        y
    };
    proof {
        lemma_civil_result(z as int, era as int, doe as int, yoe as int, doy as int, mp as int);
        lemma_march_count(y as int, m as int, d as int);
    }
    (y, m, d)
}

/// Adding `k` multiples of `d` to the dividend adds `k` to the quotient.
proof fn lemma_div_shift(a: int, k: int, d: int)
    requires
        d > 0,
    ensures
        (a + k * d) / d == a / d + k,
{
    vstd::arithmetic::div_mod::lemma_fundamental_div_mod(a, d);
    assert(a + k * d == (a / d + k) * d + a % d) by (nonlinear_arith)
        requires
            a == d * (a / d) + a % d,
    ;
    vstd::arithmetic::div_mod::lemma_fundamental_div_mod_converse(
        a + k * d,
        d,
        a / d + k,
        a % d,
    );
}

/// The date computed from the era decomposition of `z` is a calendar date
/// whose March-based day count is `z`.
#[verifier::spinoff_prover]
#[verifier::rlimit(40)]
proof fn lemma_civil_result(z: int, era: int, doe: int, yoe: int, doy: int, mp: int)
    requires
        era == z / 146097,
        doe == z - era * 146097,
        0 <= doe < 146097,
        0 <= yoe < 400,
        era_year_start(yoe) <= doe < era_year_start(yoe + 1),
        doy == doe - (365 * yoe + yoe / 4 - yoe / 100),
        0 <= mp < 12,
        month_start(mp) <= doy < month_start(mp + 1),
    ensures
        ({
            let m = if mp < 10 {
                mp + 3
            } else {
                mp - 9
            };
            let y0 = yoe + era * 400;
            let y = if m <= 2 {
                y0 + 1
            } else {
                y0
            };
            let d = doy - month_start(mp) + 1;
            &&& valid_date(y, m, d)
            &&& 365 * y0 + y0 / 4 - y0 / 100 + y0 / 400 + month_start(mp) + d - 1 == z
        }),
{
    let y0 = yoe + era * 400;
    lemma_div_shift(yoe, era * 100, 4);
    lemma_div_shift(yoe, era * 4, 100);
    lemma_div_shift(yoe, era, 400);
    assert(y0 / 4 == yoe / 4 + era * 100);
    assert(y0 / 100 == yoe / 100 + era * 4);
    assert(y0 / 400 == yoe / 400 + era);
    assert(yoe / 400 == 0);

}

/// The last day of a year: the first of January plus the length of the year.
pub proof fn lemma_year_length(y: int)
    ensures
        days_before_year(y + 1) == days_before_year(y) + days_before_month(y, 12) + 31,
{
    lemma_leap_step(y);
}

/// Day counts of valid dates of year `y` lie within that year.
pub proof fn lemma_date_in_year(y: int, m: int, d: int)
    requires
        valid_date(y, m, d),
    ensures
        days_before_year(y) <= days_from_civil(y, m, d) < days_before_year(y + 1),
        days_before_year(y) + days_before_month(y, m) <= days_from_civil(y, m, d)
            < days_before_year(y) + days_before_month(y, m) + days_in_month(y, m),
{
    lemma_year_length(y);
}

/// Years start later and later.
pub proof fn lemma_year_start_monotone(a: int, b: int)
    requires
        a < b,
    ensures
        days_before_year(a + 1) <= days_before_year(b),
    decreases b - a,
{
    if a + 1 < b {
        lemma_year_start_monotone(a + 1, b);
        lemma_year_length(a + 1);
        assert(days_before_month(a + 1, 12) >= 334);
    }
}

/// Within a year, months start later and later.
pub proof fn lemma_month_start_monotone(y: int, a: int, b: int)
    requires
        1 <= a < b <= 12,
    ensures
        days_before_month(y, a) + days_in_month(y, a) <= days_before_month(y, b),
{
}

/// A day count names at most one calendar date.
pub proof fn lemma_civil_unique(y1: int, m1: int, d1: int, y2: int, m2: int, d2: int)
    requires
        valid_date(y1, m1, d1),
        valid_date(y2, m2, d2),
        days_from_civil(y1, m1, d1) == days_from_civil(y2, m2, d2),
    ensures
        y1 == y2 && m1 == m2 && d1 == d2,
{
    lemma_date_in_year(y1, m1, d1);
    lemma_date_in_year(y2, m2, d2);
    if y1 < y2 {
        lemma_year_start_monotone(y1, y2);
    } else if y2 < y1 {
        lemma_year_start_monotone(y2, y1);
    } else {
        if m1 < m2 {
            lemma_month_start_monotone(y1, m1, m2);
        } else if m2 < m1 {
            lemma_month_start_monotone(y1, m2, m1);
        }
    }
}

/// The calendar date of the Unix day count `days`.
pub open spec fn civil_date(days: int) -> (int, int, int) {
    choose|ymd: (int, int, int)|
        valid_date(ymd.0, ymd.1, ymd.2) && days_from_civil(ymd.0, ymd.1, ymd.2) == days
}

/// The date of a non-negative day count is in 1970 or later.
pub proof fn lemma_year_after_epoch(y: int, m: int, d: int)
    requires
        valid_date(y, m, d),
        days_from_civil(y, m, d) >= 0,
    ensures
        y >= 1970,
{
    lemma_date_in_year(y, m, d);
    if y < 1970 {
        lemma_year_start_monotone(y, 1970);
        assert(days_before_year(1970) == 0);
    }
}

/// The character of decimal digit `v` (`0 <= v < 10`).
pub open spec fn digit_char(v: int) -> char {
    if v == 0 {
        '0'
    } else if v == 1 {
        '1'
    } else if v == 2 {
        '2'
    } else if v == 3 {
        '3'
    } else if v == 4 {
        '4'
    } else if v == 5 {
        '5'
    } else if v == 6 {
        '6'
    } else if v == 7 {
        '7'
    } else if v == 8 {
        '8'
    } else {
        '9'
    }
}

/// Decimal digits of `v` without leading zeros (`"0"` for zero).
pub open spec fn decimal(v: nat) -> Seq<char>
    decreases v,
{
    if v < 10 {
        seq![digit_char(v as int)]
    } else {
        decimal(v / 10).push(digit_char((v % 10) as int))
    }
}

/// Two decimal digits of `v` (`0 <= v < 100`), zero-padded.
pub open spec fn two_digits(v: int) -> Seq<char> {
    seq![digit_char(v / 10), digit_char(v % 10)]
}

/// `s` left-padded with zeros to at least `width` characters.
pub open spec fn zero_pad(s: Seq<char>, width: nat) -> Seq<char> {
    if s.len() >= width {
        s
    } else {
        Seq::new((width - s.len()) as nat, |i: int| '0') + s
    }
}

/// `secs` as `YYYY-MM-DDTHH:MM:SSZ` (UTC), years zero-padded to four digits.
pub open spec fn iso8601(secs: nat) -> Seq<char> {
    let tod: int = (secs % 86400) as int;
    let ymd = civil_date((secs / 86400) as int);
    zero_pad(decimal(ymd.0 as nat), 4) + seq!['-'] + two_digits(ymd.1) + seq!['-'] + two_digits(
        ymd.2,
    ) + seq!['T'] + two_digits(tod / 3600) + seq![':'] + two_digits((tod % 3600) / 60) + seq![
        ':',
    ] + two_digits(tod % 60) + seq!['Z']
}

fn digit(v: u64) -> (c: char)
    requires
        v < 10,
    ensures
        c == digit_char(v as int),
{
    if v == 0 {
        '0'
    } else if v == 1 {
        '1'
    } else if v == 2 {
        '2'
    } else if v == 3 {
        '3'
    } else if v == 4 {
        '4'
    } else if v == 5 {
        '5'
    } else if v == 6 {
        '6'
    } else if v == 7 {
        '7'
    } else if v == 8 {
        '8'
    } else {
        '9'
    }
}

/// Decimal digits of `v`.
pub(crate) fn decimal_chars(v: u64) -> (r: Vec<char>)
    ensures
        r@ == decimal(v as nat),
    decreases v,
{
    if v < 10 {
        let mut r = Vec::new();
        r.push(digit(v));
        assert(r@ =~= seq![digit_char(v as int)]);
        r
    } else {
        let mut r = decimal_chars(v / 10);
        r.push(digit(v % 10));
        r
    }
}

/// `v` padded with leading zeros to `width` characters.
fn zero_padded(v: u64, width: usize) -> (r: Vec<char>)
    ensures
        r@ == zero_pad(decimal(v as nat), width as nat),
{
    let digits = decimal_chars(v);
    if digits.len() >= width {
        return digits;
    }
    let mut r = Vec::new();
    let pad = width - digits.len();
    let mut i: usize = 0;
    while i < pad
        invariant
            i <= pad,
            r@ == Seq::new(i as nat, |k: int| '0'),
        decreases pad - i,
    {
        r.push('0');
        assert(r@ =~= Seq::new((i + 1) as nat, |k: int| '0'));
        i = i + 1;
    }
    let mut j: usize = 0;
    let ghost zeros = r@;
    while j < digits.len()
        invariant
            j <= digits@.len(),
            r@ == zeros + digits@.take(j as int),
        decreases digits.len() - j,
    {
        r.push(digits[j]);
        assert(r@ =~= zeros + digits@.take(j + 1));
        j = j + 1;
    }
    assert(digits@.take(digits@.len() as int) =~= digits@);
    r
}

fn push_two_digits(out: &mut Vec<char>, v: u64)
    requires
        v < 100,
    ensures
        final(out)@ == old(out)@ + two_digits(v as int),
{
    out.push(digit(v / 10));
    out.push(digit(v % 10));
    assert(final(out)@ =~= old(out)@ + two_digits(v as int));
}

/// A reading of the system clock.
#[verifier::external_type_specification]
#[verifier::external_body]
pub struct ExSystemTime(std::time::SystemTime);

/// `SystemTime::now`: the system clock's current reading. Nothing is
/// promised of it.
#[verifier::external_body]
fn system_time_now() -> std::time::SystemTime {
    std::time::SystemTime::now()
}

/// `SystemTime::duration_since(UNIX_EPOCH)`: the time since the Unix epoch,
/// `None` when the reading is earlier. Nothing is promised of the value.
#[verifier::external_body]
fn since_unix_epoch(t: &std::time::SystemTime) -> Option<std::time::Duration> {
    match t.duration_since(std::time::UNIX_EPOCH) {
        Ok(d) => Some(d),
        Err(_) => None,
    }
}

/// `Duration::as_secs`: the whole seconds of a duration. Nothing is promised
/// of the value.
#[verifier::external_body]
fn whole_seconds(d: &std::time::Duration) -> u64 {
    d.as_secs()
}

/// Current UTC time as Unix seconds: the system clock's reading since the
/// Unix epoch, zero if the clock reads earlier. Nothing is promised of the
/// value.
pub fn now_unix_secs() -> u64 {
    let now = system_time_now();
    match since_unix_epoch(&now) {
        Some(d) => whole_seconds(&d),
        None => 0,
    }
}

/// Current UTC timestamp in ISO-8601 format.
pub fn now_iso8601() -> (r: String)
    ensures
        exists|secs: nat| r@ == iso8601(secs),
{
    let s = now_unix_secs();
    unix_to_iso8601(s)
}

/// Convert Unix seconds to an ISO-8601 UTC string `YYYY-MM-DDTHH:MM:SSZ`.
pub fn unix_to_iso8601(secs: u64) -> (r: String)
    ensures
        r@ == iso8601(secs as nat),
{
    let days = (secs / 86400) as i64;
    let time_of_day = secs % 86400;
    let hours = time_of_day / 3600;
    let minutes = (time_of_day % 3600) / 60;
    let seconds = time_of_day % 60;
    let (y, m, d) = civil_from_days(days);
    proof {
        let c = civil_date(days as int);
        assert(valid_date(y as int, m as int, d as int) && days_from_civil(
            y as int,
            m as int,
            d as int,
        ) == days);
        lemma_civil_unique(c.0, c.1, c.2, y as int, m as int, d as int);
        lemma_year_after_epoch(y as int, m as int, d as int);
    }
    let mut out = zero_padded(y as u64, 4);
    out.push('-');
    push_two_digits(&mut out, m);
    out.push('-');
    push_two_digits(&mut out, d);
    out.push('T');
    push_two_digits(&mut out, hours);
    out.push(':');
    push_two_digits(&mut out, minutes);
    out.push(':');
    push_two_digits(&mut out, seconds);
    out.push('Z');
    let r = crate::text::string_from_chars(out.as_slice());
    assert(r@ =~= iso8601(secs as nat));
    r
}

} // verus!
