use attention_matters::time::{civil_from_days, now_iso8601, now_unix_secs, unix_to_iso8601};

#[test]
fn test_unix_epoch() {
    assert_eq!(unix_to_iso8601(0), "1970-01-01T00:00:00Z");
}

#[test]
fn test_known_date() {
    // 2026-02-21T00:00:00Z = 1771632000
    assert_eq!(unix_to_iso8601(1771632000), "2026-02-21T00:00:00Z");
}

#[test]
fn test_now_is_recent() {
    let ts = now_iso8601();
    assert!(ts.starts_with("202"), "timestamp should be in 2020s: {ts}");
}

#[test]
fn civil_from_days_known_values() {
    assert_eq!(civil_from_days(0), (1970, 1, 1));
    assert_eq!(civil_from_days(-1), (1969, 12, 31));
    // 2000-02-29 is a leap day, 11016 days after the epoch.
    assert_eq!(civil_from_days(11016), (2000, 2, 29));
    assert_eq!(civil_from_days(11017), (2000, 3, 1));
}

#[test]
fn iso8601_time_of_day_and_year_end() {
    assert_eq!(unix_to_iso8601(86399), "1970-01-01T23:59:59Z");
    // 1999-12-31T23:59:59Z
    assert_eq!(unix_to_iso8601(946684799), "1999-12-31T23:59:59Z");
    assert_eq!(unix_to_iso8601(946684800), "2000-01-01T00:00:00Z");
}

#[test]
fn now_unix_secs_is_after_2020() {
    assert!(now_unix_secs() > 1577836800);
}

#[test]
fn timestamps_sort_as_their_times() {
    let times = [0u64, 59, 60, 3599, 3600, 86399, 86400, 951782400, 951786061, 1700000000, 253402300799];
    let texts: Vec<String> = times.iter().map(|t| unix_to_iso8601(*t)).collect();
    for w in texts.windows(2) {
        assert!(w[0] < w[1], "{} < {}", w[0], w[1]);
    }
    assert_eq!(unix_to_iso8601(951786061), "2000-02-29T01:01:01Z");
    assert_eq!(unix_to_iso8601(253402300799), "9999-12-31T23:59:59Z");
}

#[test]
fn timestamps_have_a_fixed_layout() {
    for secs in [0u64, 951786061, 1700000000, 4102444799, 253402300799] {
        let s = unix_to_iso8601(secs);
        assert_eq!(s.len(), 20);
        assert_eq!(&s[4..5], "-");
        assert_eq!(&s[7..8], "-");
        assert_eq!(&s[10..11], "T");
        assert_eq!(&s[13..14], ":");
        assert_eq!(&s[16..17], ":");
        assert!(s.ends_with('Z'));
        let tod = secs % 86400;
        assert_eq!(&s[11..19], format!("{:02}:{:02}:{:02}", tod / 3600, tod % 3600 / 60, tod % 60));
    }
    assert_eq!(unix_to_iso8601(253402300799), "9999-12-31T23:59:59Z");
}
