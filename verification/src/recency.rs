//! How many whole days old an episode is, from the date at the start of its
//! ISO-8601 timestamp (`YYYY-MM-DD...`); unreadable timestamps count as new.
use vstd::prelude::*;

use crate::sync_dispatch::{is_safe_prefix, safe_prefix};
use crate::system::DAESystem;
use crate::text::{chars_of, lemma_utf8_len_prefix, utf8_len};

verus! {

/// How many characters of `s` fit in `n` bytes of UTF-8.
pub open spec fn fit_count(s: Seq<char>, n: int) -> int
    decreases s.len(),
{
    if utf8_len(s) <= n || s.len() == 0 {
        s.len() as int
    } else {
        fit_count(s.drop_last(), n)
    }
}

/// `fit_count` is the longest prefix that fits.
proof fn lemma_fit_count(s: Seq<char>, n: int)
    requires
        n >= 0,
    ensures
        0 <= fit_count(s, n) <= s.len(),
        utf8_len(s.take(fit_count(s, n))) <= n,
        fit_count(s, n) < s.len() ==> utf8_len(s.take(fit_count(s, n) + 1)) > n,
    decreases s.len(),
{
    if utf8_len(s) <= n || s.len() == 0 {
        assert(s.take(s.len() as int) =~= s);
    } else {
        let d = s.drop_last();
        lemma_fit_count(d, n);
        let f = fit_count(d, n);
        assert(d.take(f) =~= s.take(f));
        if f < d.len() {
            assert(d.take(f + 1) =~= s.take(f + 1));
        } else {
            assert(s.take(f + 1) =~= s);
        }
    }
}

/// The longest prefix that fits is the safe prefix.
proof fn lemma_safe_prefix_fit(s: Seq<char>, n: int, r: Seq<char>)
    requires
        n >= 0,
        is_safe_prefix(s, n, r),
    ensures
        r.len() == fit_count(s, n),
{
    lemma_fit_count(s, n);
    let f = fit_count(s, n);
    if r.len() < f {
        lemma_utf8_len_prefix(s.take(f), r.len() + 1int);
        assert(s.take(f).take(r.len() + 1int) =~= s.take(r.len() + 1int));
    } else if f < r.len() {
        lemma_utf8_len_prefix(r, f + 1);
        assert(r.take(f + 1) =~= s.take(f + 1));
    }
}

/// `s` split at every `-`, as `str::split('-')` splits it.
pub open spec fn split_dash(s: Seq<char>) -> Seq<Seq<char>>
    decreases s.len(),
{
    if s.len() == 0 {
        seq![seq![]]
    } else {
        let prev = split_dash(s.drop_last());
        if s.last() == '-' {
            prev.push(seq![])
        } else {
            prev.update(prev.len() - 1, prev.last().push(s.last()))
        }
    }
}

/// Splitting gives at least one part, each no longer than the text.
proof fn lemma_split_dash(s: Seq<char>)
    ensures
        split_dash(s).len() >= 1,
        forall|i: int| 0 <= i < split_dash(s).len() ==> #[trigger] split_dash(s)[i].len() <= s.len(),
    decreases s.len(),
{
    if s.len() > 0 {
        lemma_split_dash(s.drop_last());
    }
}

/// An ASCII digit.
pub open spec fn is_ascii_digit(c: char) -> bool {
    48 <= (c as u32) <= 57
}

/// The value of a run of ASCII digits.
pub open spec fn digits_value(s: Seq<char>) -> int
    decreases s.len(),
{
    if s.len() == 0 {
        0
    } else {
        digits_value(s.drop_last()) * 10 + ((s.last() as u32) - 48)
    }
}

/// Every character of `b` is an ASCII digit.
pub open spec fn all_digits(b: Seq<char>) -> bool {
    forall|i: int| 0 <= i < b.len() ==> is_ascii_digit(#[trigger] b[i])
}

/// The text without its leading `+`, if it has one.
pub open spec fn unsigned_body(s: Seq<char>) -> Seq<char> {
    if s.len() > 0 && s[0] == '+' {
        s.drop_first()
    } else {
        s
    }
}

/// The integer a dash-free text reads as (`i64::from_str`): an optional `+`
/// and at least one ASCII digit, nothing else.
pub open spec fn parsed_int(s: Seq<char>) -> Option<int> {
    let body = unsigned_body(s);
    if body.len() > 0 && all_digits(body) {
        Some(digits_value(body))
    } else {
        None
    }
}

/// A non-digit in the body makes the text unreadable.
proof fn lemma_parsed_int_none(s: Seq<char>, body: Seq<char>, k: int)
    requires
        body == unsigned_body(s),
        0 <= k < body.len(),
        !is_ascii_digit(body[k]),
    ensures
        parsed_int(s).is_none(),
{
}

/// Division rounding toward zero, as Rust's `/` on integers.
pub open spec fn tdiv(a: int, b: int) -> int {
    if a >= 0 {
        a / b
    } else {
        -((-a) / b)
    }
}

/// The Julian day number of a (proleptic Gregorian) date.
pub open spec fn julian_day(y: int, m: int, d: int) -> int {
    let a = tdiv(14 - m, 12);
    let y2 = y + 4800 - a;
    let m2 = m + 12 * a - 3;
    d + tdiv(153 * m2 + 2, 5) + 365 * y2 + tdiv(y2, 4) - tdiv(y2, 100) + tdiv(y2, 400) - 32045
}

/// The Julian day number of the Unix day holding `now_secs`.
pub open spec fn julian_today(now_secs: int) -> int {
    now_secs / 86400 + 2440588
}

/// Whole days from the date at the start of `t` to the day of `now_secs`,
/// never negative: the first 10 bytes of `t` must be three `-`-separated
/// integers; anything else counts as 0 days.
pub open spec fn days_ago(t: Seq<char>, now_secs: int) -> int {
    if utf8_len(t) < 10 {
        0
    } else {
        let parts = split_dash(t.take(fit_count(t, 10)));
        if parts.len() != 3 {
            0
        } else {
            match (parsed_int(parts[0]), parsed_int(parts[1]), parsed_int(parts[2])) {
                (Some(y), Some(m), Some(d)) => {
                    let diff = julian_today(now_secs) - julian_day(y, m, d);
                    if diff > 0 {
                        diff
                    } else {
                        0
                    }
                },
                _ => 0,
            }
        }
    }
}

/// The first 10 bytes of `t` end on a character boundary, or `t` is shorter.
pub open spec fn date_prefix_ok(t: Seq<char>) -> bool {
    utf8_len(t) < 10 || utf8_len(t.take(fit_count(t, 10))) == 10
}

/// `s` split at every `-`, computed.
fn split_dash_exec(s: &Vec<char>) -> (parts: Vec<Vec<char>>)
    ensures
        crate::text::char_vecs_view(parts@) == split_dash(s@),
{
    let mut parts: Vec<Vec<char>> = Vec::new();
    let mut cur: Vec<char> = Vec::new();
    let mut i: usize = 0;
    assert(s@.take(0) =~= Seq::<char>::empty());
    while i < s.len()
        invariant
            i <= s@.len(),
            crate::text::char_vecs_view(parts@).push(cur@) == split_dash(s@.take(i as int)),
        decreases s.len() - i,
    {
        assert(s@.take(i + 1).drop_last() =~= s@.take(i as int));
        assert(s@.take(i + 1).last() == s@[i as int]);
        let ghost prev = split_dash(s@.take(i as int));
        if s[i] == '-' {
            let ghost pv = crate::text::char_vecs_view(parts@);
            let done = cur;
            parts.push(done);
            cur = Vec::new();
            assert(crate::text::char_vecs_view(parts@) =~= pv.push(done@));
            assert(crate::text::char_vecs_view(parts@).push(cur@) =~= prev.push(seq![]));
        } else {
            let ghost pv = crate::text::char_vecs_view(parts@);
            cur.push(s[i]);
            assert(prev =~= pv.push(prev.last()));
            assert(pv.push(cur@) =~= prev.update(prev.len() - 1, prev.last().push(s@[i as int])));
        }
        i = i + 1;
    }
    assert(s@.take(s@.len() as int) =~= s@);
    let ghost pv = crate::text::char_vecs_view(parts@);
    let last = cur;
    parts.push(last);
    assert(crate::text::char_vecs_view(parts@) =~= pv.push(last@));
    parts
}

/// `10^n`.
pub open spec fn pow10(n: nat) -> int
    decreases n,
{
    if n == 0 {
        1
    } else {
        10 * pow10((n - 1) as nat)
    }
}

/// Powers of ten up to `10^10`.
proof fn lemma_pow10_bound(n: nat)
    requires
        n <= 10,
    ensures
        1 <= pow10(n) <= 10000000000,
    decreases 10 - n,
{
    if n < 10 {
        lemma_pow10_bound(n + 1);
    } else {
        reveal_with_fuel(pow10, 11);
        assert(pow10(10) == 10000000000);
    }
}

/// A dash-free text of at most 10 characters, read as an integer.
fn parse_part(s: &Vec<char>) -> (r: Option<i64>)
    requires
        s@.len() <= 10,
    ensures
        match r {
            Some(v) => parsed_int(s@) == Some(v as int) && 0 <= v < 10000000000,
            None => parsed_int(s@).is_none(),
        },
{
    let start: usize = if s.len() > 0 && s[0] == '+' {
        1
    } else {
        0
    };
    let ghost body = unsigned_body(s@);
    assert(body =~= s@.skip(start as int));
    if start >= s.len() {
        return None;
    }
    let mut v: i64 = 0;
    let mut i: usize = start;
    assert(body.take(0) =~= Seq::<char>::empty());
    while i < s.len()
        invariant
            start <= i <= s@.len(),
            s@.len() <= 10,
            body =~= s@.skip(start as int),
            body == unsigned_body(s@),
            forall|j: int| 0 <= j < i - start ==> is_ascii_digit(#[trigger] body[j]),
            v == digits_value(body.take(i - start)),
            0 <= v < pow10((i - start) as nat),
        decreases s.len() - i,
    {
        let c = s[i];
        assert(body[i - start] == c);
        let u = c as u32;
        if u < 48 || u > 57 {
            assert(!is_ascii_digit(body[i - start]));
            assert(!(forall|j: int| 0 <= j < body.len() ==> is_ascii_digit(#[trigger] body[j])));
            proof {
                lemma_parsed_int_none(s@, body, i - start);
            }
            return None;
        }
        assert(body.take(i - start + 1).drop_last() =~= body.take(i - start));
        assert(body.take(i - start + 1).last() == c);
        let digit = (u - 48) as i64;
        proof {
            lemma_pow10_bound((i - start + 1) as nat);
            assert(pow10((i - start + 1) as nat) == 10 * pow10((i - start) as nat));
        }
        v = v * 10 + digit;
        i = i + 1;
    }
    proof {
        lemma_pow10_bound((i - start) as nat);
    }
    assert(body.take(body.len() as int) =~= body);
    Some(v)
}

/// Division rounding toward zero, computed.
fn tdiv_exec(a: i64, b: i64) -> (q: i64)
    requires
        b > 0,
        a > i64::MIN,
    ensures
        q == tdiv(a as int, b as int),
{
    if a >= 0 {
        ((a as u64) / (b as u64)) as i64
    } else {
        let n = (-a) as u64;
        let q = n / (b as u64);
        assert(q <= n);
        -(q as i64)
    }
}

/// Whole days from the date at the start of `timestamp` to the day of
/// `now_secs` (0 when the date is later or unreadable).
pub fn days_ago_at(timestamp: &str, now_secs: u64) -> (r: u64)
    requires
        date_prefix_ok(timestamp@),
    ensures
        r == days_ago(timestamp@, now_secs as int),
{
    let prefix = safe_prefix(timestamp, 10);
    let pc = chars_of(prefix);
    let tc = chars_of(timestamp);
    proof {
        lemma_safe_prefix_fit(timestamp@, 10, prefix@);
        lemma_fit_count(timestamp@, 10);
    }
    let total = crate::text::utf8_len_of(&tc);
    let short = match total {
        Some(b) => b < 10,
        None => false,
    };
    if short {
        return 0;
    }
    assert(pc@ == timestamp@.take(fit_count(timestamp@, 10)));
    assert(pc@.len() <= 10) by {
        crate::text::lemma_utf8_len_ge_len(pc@);
    }
    let parts = split_dash_exec(&pc);
    proof {
        lemma_split_dash(pc@);
    }
    if parts.len() != 3 {
        return 0;
    }
    assert(crate::text::char_vecs_view(parts@)[0] == parts@[0]@);
    assert(crate::text::char_vecs_view(parts@)[1] == parts@[1]@);
    assert(crate::text::char_vecs_view(parts@)[2] == parts@[2]@);
    let y = match parse_part(&parts[0]) {
        Some(v) => v,
        None => return 0,
    };
    let m = match parse_part(&parts[1]) {
        Some(v) => v,
        None => return 0,
    };
    let d = match parse_part(&parts[2]) {
        Some(v) => v,
        None => return 0,
    };
    let a = tdiv_exec(14 - m, 12);
    let y2 = y + 4800 - a;
    let m2 = m + 12 * a - 3;
    let q1 = tdiv_exec(153 * m2 + 2, 5);
    let q4 = tdiv_exec(y2, 4);
    let q100 = tdiv_exec(y2, 100);
    let q400 = tdiv_exec(y2, 400);
    let ep = d + q1 + 365 * y2 + q4 - q100 + q400 - 32045;
    assert(ep == julian_day(y as int, m as int, d as int));
    let today = (now_secs / 86400) as i64 + 2440588;
    let diff = today - ep;
    if diff > 0 {
        diff as u64
    } else {
        0
    }
}

/// Whole days from the date at the start of `timestamp` to today.
pub fn parse_days_ago(timestamp: &str) -> (r: u64)
    requires
        date_prefix_ok(timestamp@),
    ensures
        exists|now: nat| r == days_ago(timestamp@, now as int),
{
    let now = crate::time::now_unix_secs();
    days_ago_at(timestamp, now)
}

/// Whole days since the episode at `episode_idx` (`usize::MAX`: the
/// conscious one) was stamped; an empty timestamp counts as 0 days.
pub fn days_since_episode(system: &DAESystem, episode_idx: usize) -> (r: u64)
    requires
        episode_idx == usize::MAX || episode_idx < system@.episodes.len(),
        date_prefix_ok(system@.episode(episode_idx).timestamp),
    ensures
        system@.episode(episode_idx).timestamp.len() == 0 ==> r == 0,
        system@.episode(episode_idx).timestamp.len() > 0 ==> exists|now: nat|
            r == days_ago(system@.episode(episode_idx).timestamp, now as int),
{
    let episode = if episode_idx == usize::MAX {
        &system.conscious_episode
    } else {
        assert(system@.episodes[episode_idx as int] == system.episodes@[episode_idx as int]@);
        &system.episodes[episode_idx]
    };
    if episode.timestamp.as_str().is_empty() {
        0
    } else {
        parse_days_ago(episode.timestamp.as_str())
    }
}

} // verus!
