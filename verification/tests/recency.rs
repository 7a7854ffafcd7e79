use attention_matters::episode::Episode;
use attention_matters::recency::{days_ago_at, days_since_episode, parse_days_ago};
use attention_matters::system::DAESystem;

// 2026-02-21T00:00:00Z
const FEB_21_2026: u64 = 1771632000;

#[test]
fn whole_days_between_dates() {
    assert_eq!(days_ago_at("2026-02-19T12:00:00Z", FEB_21_2026), 2);
    assert_eq!(days_ago_at("2026-02-21", FEB_21_2026), 0);
    assert_eq!(days_ago_at("2025-02-21", FEB_21_2026), 365);
    assert_eq!(days_ago_at("2024-02-21", FEB_21_2026), 731);
    assert_eq!(days_ago_at("1970-01-01", 0), 0);
    assert_eq!(days_ago_at("1969-12-31", 0), 1);
}

#[test]
fn future_and_unreadable_dates_count_as_today() {
    assert_eq!(days_ago_at("2030-01-01", FEB_21_2026), 0);
    assert_eq!(days_ago_at("", FEB_21_2026), 0);
    assert_eq!(days_ago_at("2026-02", FEB_21_2026), 0);
    assert_eq!(days_ago_at("2026/02/19", FEB_21_2026), 0);
    assert_eq!(days_ago_at("20x6-02-19", FEB_21_2026), 0);
    assert_eq!(days_ago_at("2026-02-1-", FEB_21_2026), 0);
}

#[test]
fn plus_signs_are_read_like_integers() {
    assert_eq!(days_ago_at("+2026-2-19", FEB_21_2026), 2);
    assert_eq!(days_ago_at("2026-+2-19", FEB_21_2026), 2);
}

#[test]
fn episodes_stamped_now_are_zero_days_old() {
    let mut sys = DAESystem::new("t");
    sys.add_episode(Episode::new("fresh"));
    assert_eq!(days_since_episode(&sys, 0), 0);
    sys.conscious_episode.timestamp = String::new();
    assert_eq!(days_since_episode(&sys, usize::MAX), 0);
    assert!(parse_days_ago("2020-01-01") > 2000);
}
