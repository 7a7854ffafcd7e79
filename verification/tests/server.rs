use std::hash::{Hash, Hasher};

use attention_matters::episode::Episode;
use attention_matters::json::Json;
use attention_matters::neighborhood::Neighborhood;
use attention_matters::server::{
    check_exchange_size, check_input_size, combine_exchanges, content_hash, stats_json,
    store_err_to_string, BUFFER_THRESHOLD, MAX_TOOL_INPUT_BYTES,
};
use attention_matters::system::DAESystem;

fn number(j: &Json, key: &str) -> String {
    match j.get(key) {
        Some(Json::Number(s)) => s.clone(),
        _ => panic!("missing number {key}"),
    }
}

#[test]
fn input_within_limit_is_accepted() {
    assert!(check_input_size("small", "text").is_ok());
    let exact = "x".repeat(MAX_TOOL_INPUT_BYTES);
    assert!(check_input_size(&exact, "text").is_ok());
}

#[test]
fn oversized_input_is_rejected_with_the_field_name() {
    let big = "x".repeat(MAX_TOOL_INPUT_BYTES + 1);
    assert_eq!(check_input_size(&big, "query").unwrap_err(), "query exceeds 1048576 byte limit");
}

#[test]
fn oversized_exchange_is_rejected() {
    let half = "y".repeat(MAX_TOOL_INPUT_BYTES / 2 + 1);
    assert_eq!(
        check_exchange_size(&half, &half).unwrap_err(),
        "combined input exceeds 1048576 byte limit"
    );
    assert!(check_exchange_size("user", "assistant").is_ok());
}

#[test]
fn store_errors_are_prefixed() {
    assert_eq!(store_err_to_string("disk full"), "[store] disk full");
}

#[test]
fn buffered_exchanges_combine_into_one_text() {
    let xs = vec![
        ("q1".to_string(), "a1".to_string()),
        ("q2".to_string(), "a2".to_string()),
    ];
    assert_eq!(combine_exchanges(&xs), "q1\na1\n\nq2\na2");
    assert_eq!(combine_exchanges(&Vec::new()), "");
    assert_eq!(BUFFER_THRESHOLD, 3);
}

#[test]
fn content_hash_is_stable_and_discriminating() {
    assert_eq!(content_hash("u", "a"), content_hash("u", "a"));
    assert_ne!(content_hash("u", "a"), content_hash("u", "b"));
    assert_ne!(content_hash("ua", ""), content_hash("u", "a"));
}

#[test]
fn test_am_stats_empty() {
    let sys = DAESystem::new("test");
    let j = stats_json(&sys);
    assert_eq!(number(&j, "n"), "0");
    assert_eq!(number(&j, "episodes"), "0");
    assert_eq!(number(&j, "conscious"), "0");
}

#[test]
fn stats_count_occurrences_episodes_and_conscious_neighborhoods() {
    let mut sys = DAESystem::new("test");
    let mut ep = Episode::new("e");
    ep.add_neighborhood(Neighborhood::from_tokens(&vec!["a".to_string(), "b".to_string()], ""));
    sys.add_episode(ep);
    sys.add_to_conscious("one two three");
    let j = stats_json(&sys);
    assert_eq!(number(&j, "n"), "5");
    assert_eq!(number(&j, "episodes"), "1");
    assert_eq!(number(&j, "conscious"), "1");
}

#[test]
fn content_hash_is_fxhash_of_user_newline_assistant() {
    let mut h = rustc_hash::FxHasher::default();
    "What is S3?".hash(&mut h);
    b"\n".hash(&mut h);
    "A sphere.".hash(&mut h);
    assert_eq!(content_hash("What is S3?", "A sphere."), h.finish());
    assert_eq!(content_hash("a", "b"), content_hash("a", "b"));
    assert_ne!(content_hash("a\n", "b"), content_hash("a", "\nb"));
}
