//! ISO-8601 timestamps before the year 10000: their fixed layout, and that
//! they sort as the times they stand for.
use vstd::prelude::*;

use crate::sync::text_lt;
use crate::time::{
    civil_date, days_before_month, days_before_year, days_from_civil, days_in_month, decimal,
    digit_char, iso8601, two_digits, valid_date, zero_pad,
};

verus! {

/// The first second of the year 10000.
pub open spec fn year_10000() -> nat {
    253402300800
}

proof fn lemma_digit_code(v: int)
    requires
        0 <= v < 10,
    ensures
        digit_char(v) as int == 48 + v,
{
}

/// A common prefix does not change the order.
proof fn lemma_lt_prefix(p: Seq<char>, x: Seq<char>, y: Seq<char>)
    ensures
        text_lt(p + x, p + y) == text_lt(x, y),
    decreases p.len(),
{
    if p.len() > 0 {
        assert((p + x)[0] == p[0]);
        assert((p + y)[0] == p[0]);
        assert((p + x).drop_first() =~= p.drop_first() + x);
        assert((p + y).drop_first() =~= p.drop_first() + y);
        lemma_lt_prefix(p.drop_first(), x, y);
    } else {
        assert(p + x =~= x);
        assert(p + y =~= y);
    }
}

/// The first difference of two equally long blocks decides, whatever
/// follows them.
proof fn lemma_lt_block(x: Seq<char>, y: Seq<char>, u: Seq<char>, v: Seq<char>)
    requires
        x.len() == y.len(),
        text_lt(x, y),
    ensures
        text_lt(x + u, y + v),
    decreases x.len(),
{
    assert(x.len() > 0);
    assert((x + u)[0] == x[0]);
    assert((y + v)[0] == y[0]);
    if x[0] == y[0] {
        assert((x + u).drop_first() =~= x.drop_first() + u);
        assert((y + v).drop_first() =~= y.drop_first() + v);
        lemma_lt_block(x.drop_first(), y.drop_first(), u, v);
    }
}

/// Two-digit numbers sort as their texts.
proof fn lemma_two_digits_lt(v: int, w: int)
    requires
        0 <= v < w < 100,
    ensures
        text_lt(two_digits(v), two_digits(w)),
{
    lemma_digit_code(v / 10);
    lemma_digit_code(w / 10);
    lemma_digit_code(v % 10);
    lemma_digit_code(w % 10);
    let a = two_digits(v);
    let b = two_digits(w);
    assert(a[0] == digit_char(v / 10) && b[0] == digit_char(w / 10));
    if v / 10 == w / 10 {
        assert(v % 10 < w % 10);
        let x = seq![digit_char(v % 10)];
        let y = seq![digit_char(w % 10)];
        assert(a.drop_first() =~= x);
        assert(b.drop_first() =~= y);
        assert(x[0] != y[0]);
        assert(text_lt(x, y));
    } else {
        assert(v / 10 < w / 10);
        assert(a[0] != b[0]);
    }
}

/// A four-digit year's text is the two-digit texts of its centuries and of
/// its year within the century.
proof fn lemma_year_text(y: int)
    requires
        1000 <= y <= 9999,
    ensures
        zero_pad(decimal(y as nat), 4) == two_digits(y / 100) + two_digits(y % 100),
{
    let n = y as nat;
    assert(n / 10 >= 10);
    assert(n / 100 >= 10);
    assert(n / 1000 < 10);
    assert(n / 10 / 10 == n / 100);
    assert(n / 100 / 10 == n / 1000);
    assert(decimal(n / 1000) == seq![digit_char((n / 1000) as int)]);
    assert(decimal(n / 100) == decimal(n / 1000).push(digit_char((n / 100 % 10) as int)));
    assert(decimal(n / 10) == decimal(n / 100).push(digit_char((n / 10 % 10) as int)));
    assert(decimal(n) == decimal(n / 10).push(digit_char((n % 10) as int)));
    assert((y / 100) / 10 == y / 1000);
    assert((y % 100) / 10 == (y / 10) % 10);
    assert((y % 100) % 10 == y % 10);
    assert(decimal(n).len() == 4);
    assert(decimal(n) =~= two_digits(y / 100) + two_digits(y % 100));
}

/// Four-digit years sort as their texts.
proof fn lemma_year_lt(y1: int, y2: int)
    requires
        1000 <= y1 < y2 <= 9999,
    ensures
        text_lt(zero_pad(decimal(y1 as nat), 4), zero_pad(decimal(y2 as nat), 4)),
{
    lemma_year_text(y1);
    lemma_year_text(y2);
    if y1 / 100 < y2 / 100 {
        lemma_two_digits_lt(y1 / 100, y2 / 100);
        lemma_lt_block(two_digits(y1 / 100), two_digits(y2 / 100), two_digits(y1 % 100), two_digits(y2 % 100));
    } else {
        assert(y1 / 100 == y2 / 100);
        assert(y1 % 100 < y2 % 100);
        lemma_two_digits_lt(y1 % 100, y2 % 100);
        lemma_lt_prefix(two_digits(y1 / 100), two_digits(y1 % 100), two_digits(y2 % 100));
    }
}

/// Dates in calendar order have day counts in the same order.
proof fn lemma_days_monotone(y1: int, m1: int, d1: int, y2: int, m2: int, d2: int)
    requires
        valid_date(y1, m1, d1),
        valid_date(y2, m2, d2),
        y1 < y2 || (y1 == y2 && (m1 < m2 || (m1 == m2 && d1 < d2))),
    ensures
        days_from_civil(y1, m1, d1) < days_from_civil(y2, m2, d2),
{
    crate::time::lemma_date_in_year(y1, m1, d1);
    crate::time::lemma_date_in_year(y2, m2, d2);
    if y1 < y2 {
        crate::time::lemma_year_start_monotone(y1, y2);
    } else if m1 < m2 {
        crate::time::lemma_month_start_monotone(y1, m1, m2);
    }
}

/// Every non-negative day count names a calendar date.
proof fn lemma_civil_exists(days: int)
    requires
        days >= 0,
    ensures
        exists|ymd: (int, int, int)| valid_date(ymd.0, ymd.1, ymd.2) && days_from_civil(ymd.0, ymd.1, ymd.2) == days,
    decreases days,
{
    if days == 0 {
        assert(valid_date(1970, 1, 1) && days_from_civil(1970, 1, 1) == 0);
        assert(valid_date((1970int, 1int, 1int).0, (1970int, 1int, 1int).1, (1970int, 1int, 1int).2));
    } else {
        lemma_civil_exists(days - 1);
        let p = choose|ymd: (int, int, int)| valid_date(ymd.0, ymd.1, ymd.2) && days_from_civil(ymd.0, ymd.1, ymd.2) == days - 1;
        let (y, m, d) = p;
        if d < days_in_month(y, m) {
            assert(valid_date((y, m, d + 1).0, (y, m, d + 1).1, (y, m, d + 1).2));
            assert(days_from_civil(y, m, d + 1) == days);
        } else if m < 12 {
            assert(days_before_month(y, m) + days_in_month(y, m) == days_before_month(y, m + 1));
            assert(valid_date((y, m + 1, 1int).0, (y, m + 1, 1int).1, (y, m + 1, 1int).2));
            assert(days_from_civil(y, m + 1, 1) == days);
        } else {
            crate::time::lemma_year_length(y);
            assert(valid_date((y + 1, 1int, 1int).0, (y + 1, 1int, 1int).1, (y + 1, 1int, 1int).2));
            assert(days_from_civil(y + 1, 1, 1) == days);
        }
    }
}

/// The date of a day count before the year 10000 has a four-digit year.
proof fn lemma_date_range(days: int)
    requires
        0 <= days < 2932897,
    ensures
        valid_date(civil_date(days).0, civil_date(days).1, civil_date(days).2),
        days_from_civil(civil_date(days).0, civil_date(days).1, civil_date(days).2) == days,
        1970 <= civil_date(days).0 <= 9999,
{
    lemma_civil_exists(days);
    let c = civil_date(days);
    crate::time::lemma_year_after_epoch(c.0, c.1, c.2);
    crate::time::lemma_date_in_year(c.0, c.1, c.2);
    if c.0 > 9999 {
        crate::time::lemma_year_start_monotone(9999, c.0);
        crate::time::lemma_year_length(9999);
        assert(days_before_year(9999) + days_before_month(9999, 12) + 31 == 2932897);
    }
}

/// The time-of-day fields of `tod` in order, then the same of a later
/// `tod2`: hours first, then minutes, then seconds.
proof fn lemma_tod_order(t1: int, t2: int)
    requires
        0 <= t1 < t2 < 86400,
    ensures
        t1 / 3600 < t2 / 3600 || (t1 / 3600 == t2 / 3600 && ((t1 % 3600) / 60 < (t2 % 3600) / 60 || (
        (t1 % 3600) / 60 == (t2 % 3600) / 60 && t1 % 60 < t2 % 60))),
        0 <= t1 / 3600 < 24,
        0 <= t2 / 3600 < 24,
        0 <= (t1 % 3600) / 60 < 60,
        0 <= (t2 % 3600) / 60 < 60,
{
    assert(t1 == 3600 * (t1 / 3600) + 60 * ((t1 % 3600) / 60) + t1 % 60) by (nonlinear_arith)
        requires
            0 <= t1,
    ;
    assert(t2 == 3600 * (t2 / 3600) + 60 * ((t2 % 3600) / 60) + t2 % 60) by (nonlinear_arith)
        requires
            0 <= t2,
    ;
}

/// The time part of an ISO-8601 text: `THH:MM:SSZ`.
spec fn tail_text(h: int, mi: int, s: int) -> Seq<char> {
    seq!['T'] + (two_digits(h) + (seq![':'] + (two_digits(mi) + (seq![':'] + (two_digits(s) + seq!['Z'])))))
}

/// The right-nested form of an ISO-8601 text.
spec fn iso_text(y: int, mo: int, d: int, h: int, mi: int, s: int) -> Seq<char> {
    zero_pad(decimal(y as nat), 4) + (seq!['-'] + (two_digits(mo) + (seq!['-'] + (two_digits(d) + tail_text(
        h,
        mi,
        s,
    )))))
}

proof fn lemma_iso_text(secs: nat)
    ensures
        iso8601(secs) == ({
            let tod: int = (secs % 86400) as int;
            let ymd = civil_date((secs / 86400) as int);
            iso_text(ymd.0, ymd.1, ymd.2, tod / 3600, (tod % 3600) / 60, tod % 60)
        }),
{
    let tod: int = (secs % 86400) as int;
    let ymd = civil_date((secs / 86400) as int);
    assert(iso8601(secs) =~= iso_text(ymd.0, ymd.1, ymd.2, tod / 3600, (tod % 3600) / 60, tod % 60));
}

/// Later times of day give later time parts.
proof fn lemma_tail_lt(h1: int, i1: int, s1: int, h2: int, i2: int, s2: int)
    requires
        0 <= h1 < 100 && 0 <= h2 < 100 && 0 <= i1 < 100 && 0 <= i2 < 100 && 0 <= s1 < 100 && 0 <= s2 < 100,
        h1 < h2 || (h1 == h2 && (i1 < i2 || (i1 == i2 && s1 < s2))),
    ensures
        text_lt(tail_text(h1, i1, s1), tail_text(h2, i2, s2)),
{
    let r1 = seq![':'] + (two_digits(i1) + (seq![':'] + (two_digits(s1) + seq!['Z'])));
    let r2 = seq![':'] + (two_digits(i2) + (seq![':'] + (two_digits(s2) + seq!['Z'])));
    if h1 < h2 {
        lemma_two_digits_lt(h1, h2);
        lemma_lt_block(two_digits(h1), two_digits(h2), r1, r2);
    } else {
        let q1 = seq![':'] + (two_digits(s1) + seq!['Z']);
        let q2 = seq![':'] + (two_digits(s2) + seq!['Z']);
        if i1 < i2 {
            lemma_two_digits_lt(i1, i2);
            lemma_lt_block(two_digits(i1), two_digits(i2), q1, q2);
        } else {
            lemma_two_digits_lt(s1, s2);
            lemma_lt_block(two_digits(s1), two_digits(s2), seq!['Z'], seq!['Z']);
            lemma_lt_prefix(seq![':'], two_digits(s1) + seq!['Z'], two_digits(s2) + seq!['Z']);
            lemma_lt_prefix(two_digits(i1), q1, q2);
        }
        lemma_lt_prefix(seq![':'], two_digits(i1) + q1, two_digits(i2) + q2);
        lemma_lt_prefix(two_digits(h1), r1, r2);
    }
    lemma_lt_prefix(seq!['T'], two_digits(h1) + r1, two_digits(h2) + r2);
}

/// Later dates give later texts, whatever the times.
proof fn lemma_date_lt(y1: int, m1: int, d1: int, y2: int, m2: int, d2: int, t1: Seq<char>, t2: Seq<char>)
    requires
        1000 <= y1 <= 9999 && 1000 <= y2 <= 9999,
        0 <= m1 < 100 && 0 <= m2 < 100 && 0 <= d1 < 100 && 0 <= d2 < 100,
        y1 < y2 || (y1 == y2 && (m1 < m2 || (m1 == m2 && d1 < d2))),
    ensures
        text_lt(
            zero_pad(decimal(y1 as nat), 4) + (seq!['-'] + (two_digits(m1) + (seq!['-'] + (two_digits(d1) + t1)))),
            zero_pad(decimal(y2 as nat), 4) + (seq!['-'] + (two_digits(m2) + (seq!['-'] + (two_digits(d2) + t2)))),
        ),
{
    let yt1 = zero_pad(decimal(y1 as nat), 4);
    let yt2 = zero_pad(decimal(y2 as nat), 4);
    let dd1 = seq!['-'] + (two_digits(d1) + t1);
    let dd2 = seq!['-'] + (two_digits(d2) + t2);
    let md1 = seq!['-'] + (two_digits(m1) + dd1);
    let md2 = seq!['-'] + (two_digits(m2) + dd2);
    lemma_year_text(y1);
    lemma_year_text(y2);
    if y1 < y2 {
        lemma_year_lt(y1, y2);
        lemma_lt_block(yt1, yt2, md1, md2);
    } else {
        if m1 < m2 {
            lemma_two_digits_lt(m1, m2);
            lemma_lt_block(two_digits(m1), two_digits(m2), dd1, dd2);
        } else {
            lemma_two_digits_lt(d1, d2);
            lemma_lt_block(two_digits(d1), two_digits(d2), t1, t2);
            lemma_lt_prefix(seq!['-'], two_digits(d1) + t1, two_digits(d2) + t2);
            lemma_lt_prefix(two_digits(m1), dd1, dd2);
        }
        lemma_lt_prefix(seq!['-'], two_digits(m1) + dd1, two_digits(m2) + dd2);
        lemma_lt_prefix(yt1, md1, md2);
    }
}

/// Timestamps sort as the times they stand for: for `a <= b` before the
/// year 10000, the text of `a` equals or comes before the text of `b`.
pub proof fn lemma_iso8601_ordered(a: nat, b: nat)
    requires
        a <= b < year_10000(),
    ensures
        iso8601(a) == iso8601(b) || text_lt(iso8601(a), iso8601(b)),
{
    if a < b {
        lemma_iso_text(a);
        lemma_iso_text(b);
        let ta = (a % 86400) as int;
        let tb = (b % 86400) as int;
        let da = (a / 86400) as int;
        let db = (b / 86400) as int;
        lemma_date_range(da);
        lemma_date_range(db);
        let c1 = civil_date(da);
        let c2 = civil_date(db);
        let (h1, i1, s1) = (ta / 3600, (ta % 3600) / 60, ta % 60);
        let (h2, i2, s2) = (tb / 3600, (tb % 3600) / 60, tb % 60);
        let t1 = tail_text(h1, i1, s1);
        let t2 = tail_text(h2, i2, s2);
        if da == db {
            lemma_tod_order(ta, tb);
            lemma_tail_lt(h1, i1, s1, h2, i2, s2);
            let p = zero_pad(decimal(c1.0 as nat), 4) + (seq!['-'] + (two_digits(c1.1) + (seq!['-'] + two_digits(c1.2))));
            assert(iso_text(c1.0, c1.1, c1.2, h1, i1, s1) =~= p + t1);
            assert(iso_text(c1.0, c1.1, c1.2, h2, i2, s2) =~= p + t2);
            lemma_lt_prefix(p, t1, t2);
        } else {
            if !(c1.0 < c2.0 || (c1.0 == c2.0 && (c1.1 < c2.1 || (c1.1 == c2.1 && c1.2 < c2.2)))) {
                if !(c1.0 == c2.0 && c1.1 == c2.1 && c1.2 == c2.2) {
                    lemma_days_monotone(c2.0, c2.1, c2.2, c1.0, c1.1, c1.2);
                }
            }
            lemma_date_lt(c1.0, c1.1, c1.2, c2.0, c2.1, c2.2, t1, t2);
        }
    }
}

/// The layout of a timestamp before the year 10000: twenty characters,
/// `YYYY-MM-DDTHH:MM:SSZ`, where `YYYY-MM-DD` is the calendar date
/// `secs / 86400` days after 1970-01-01 with a four-digit year, and
/// `HH:MM:SS` the hours, minutes and seconds of `secs % 86400`.
pub proof fn lemma_iso8601_layout(secs: nat)
    requires
        secs < year_10000(),
    ensures
        ({
            let s = iso8601(secs);
            let days = (secs / 86400) as int;
            let tod = (secs % 86400) as int;
            let c = civil_date(days);
            &&& valid_date(c.0, c.1, c.2)
            &&& days_from_civil(c.0, c.1, c.2) == days
            &&& 1970 <= c.0 <= 9999
            &&& s.len() == 20
            &&& s.subrange(0, 4) == two_digits(c.0 / 100) + two_digits(c.0 % 100)
            &&& s[4] == '-'
            &&& s.subrange(5, 7) == two_digits(c.1)
            &&& s[7] == '-'
            &&& s.subrange(8, 10) == two_digits(c.2)
            &&& s[10] == 'T'
            &&& s.subrange(11, 13) == two_digits(tod / 3600)
            &&& s[13] == ':'
            &&& s.subrange(14, 16) == two_digits((tod % 3600) / 60)
            &&& s[16] == ':'
            &&& s.subrange(17, 19) == two_digits(tod % 60)
            &&& s[19] == 'Z'
        }),
{
    let days = (secs / 86400) as int;
    let tod = (secs % 86400) as int;
    lemma_date_range(days);
    let c = civil_date(days);
    lemma_year_text(c.0);
    let s = iso8601(secs);
    let y = two_digits(c.0 / 100) + two_digits(c.0 % 100);
    let whole = y + seq!['-'] + two_digits(c.1) + seq!['-'] + two_digits(c.2) + seq!['T'] + two_digits(
        tod / 3600,
    ) + seq![':'] + two_digits((tod % 3600) / 60) + seq![':'] + two_digits(tod % 60) + seq!['Z'];
    assert(s =~= whole);
    assert(s.len() == 20);
    assert(s.subrange(0, 4) =~= y);
    assert(s.subrange(5, 7) =~= two_digits(c.1));
    assert(s.subrange(8, 10) =~= two_digits(c.2));
    assert(s.subrange(11, 13) =~= two_digits(tod / 3600));
    assert(s.subrange(14, 16) =~= two_digits((tod % 3600) / 60));
    assert(s.subrange(17, 19) =~= two_digits(tod % 60));
}

} // verus!
