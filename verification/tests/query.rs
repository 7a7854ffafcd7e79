use attention_matters::episode::Episode;
use attention_matters::neighborhood::Neighborhood;
use attention_matters::query::{dedup_tokens, query_token_count, QueryEngine};
use attention_matters::system::DAESystem;

fn to_tokens(words: &[&str]) -> Vec<String> {
    words.iter().map(|s| s.to_string()).collect()
}

fn system() -> DAESystem {
    let mut sys = DAESystem::new("test");
    let mut ep = Episode::new("ep");
    ep.add_neighborhood(Neighborhood::from_tokens(&to_tokens(&["apple", "pie", "apple"]), ""));
    ep.add_neighborhood(Neighborhood::from_tokens(&to_tokens(&["cherry", "pie"]), ""));
    sys.add_episode(ep);
    sys.add_to_conscious("apple orchard");
    sys
}

#[test]
fn test_manifest_contains_activated_ids() {
    let mut sys = system();
    let (result, ids) = QueryEngine::activate(&mut sys, "apple");
    assert_eq!(result.subconscious.len(), 2);
    assert_eq!(result.conscious.len(), 1);
    assert_eq!(ids.len(), 3);
    assert_eq!(ids[0], sys.episodes[0].neighborhoods[0].occurrences[0].id);
    assert_eq!(ids[2], sys.conscious_episode.neighborhoods[0].occurrences[0].id);
}

#[test]
fn test_manifest_empty_when_no_matches() {
    let mut sys = system();
    let (result, ids) = QueryEngine::activate(&mut sys, "zebra");
    assert!(result.subconscious.is_empty() && result.conscious.is_empty());
    assert!(ids.is_empty());
}

#[test]
fn activation_raises_each_matching_occurrence_once_per_distinct_word() {
    let mut sys = system();
    let _ = QueryEngine::activate(&mut sys, "Apple apple PIE");
    let counts: Vec<u32> = sys.episodes[0].neighborhoods[0].occurrences.iter().map(|o| o.activation_count).collect();
    assert_eq!(counts, vec![1, 1, 1]);
    assert_eq!(sys.episodes[0].neighborhoods[1].occurrences[1].activation_count, 1);
    assert_eq!(sys.episodes[0].neighborhoods[1].occurrences[0].activation_count, 0);
    // Conscious: pre-activated once, then once more.
    assert_eq!(sys.conscious_episode.neighborhoods[0].occurrences[0].activation_count, 2);
}

#[test]
fn distinct_tokens_keep_first_appearance() {
    let tokens = to_tokens(&["b", "a", "b", "c", "a"]);
    assert_eq!(dedup_tokens(&tokens), vec!["b", "a", "c"]);
    // Distinct words, ignoring case.
    assert_eq!(query_token_count("one two, Two three!"), 3);
}
