use attention_matters::batch::{BatchQueryEngine, BatchQueryRequest, DEFAULT_BATCH_MAX_TOKENS};
use attention_matters::episode::Episode;
use attention_matters::neighborhood::Neighborhood;
use attention_matters::query::QueryEngine;
use attention_matters::system::DAESystem;

fn to_tokens(words: &[&str]) -> Vec<String> {
    words.iter().map(|s| s.to_string()).collect()
}

fn make_batch_system() -> DAESystem {
    let mut sys = DAESystem::new("test");

    let mut ep1 = Episode::new("Science");
    ep1.add_neighborhood(Neighborhood::from_tokens(
        &to_tokens(&["quantum", "physics", "particle", "wave"]),
        "quantum physics particle wave",
    ));
    ep1.add_neighborhood(Neighborhood::from_tokens(
        &to_tokens(&["neural", "network", "deep", "learning"]),
        "neural network deep learning",
    ));
    ep1.add_neighborhood(Neighborhood::from_tokens(
        &to_tokens(&["biology", "cell", "membrane", "protein"]),
        "biology cell membrane protein",
    ));
    sys.add_episode(ep1);

    let mut ep2 = Episode::new("Engineering");
    ep2.add_neighborhood(Neighborhood::from_tokens(
        &to_tokens(&["rust", "compiler", "borrow", "lifetime"]),
        "rust compiler borrow lifetime",
    ));
    ep2.add_neighborhood(Neighborhood::from_tokens(
        &to_tokens(&["kubernetes", "container", "pod", "deployment"]),
        "kubernetes container pod deployment",
    ));
    sys.add_episode(ep2);

    sys.add_to_conscious("quantum computing neural architecture");
    sys
}

fn request(query: &str, max_tokens: Option<usize>) -> BatchQueryRequest {
    BatchQueryRequest { query: query.to_string(), max_tokens }
}

fn counts_of(sys: &mut DAESystem, word: &str) -> Vec<u32> {
    let refs = sys.get_word_occurrences(word);
    refs.iter().map(|r| sys.get_occurrence(*r).activation_count).collect()
}

#[test]
fn test_batch_returns_per_query_results() {
    let mut sys = make_batch_system();
    let requests = vec![request("quantum physics", Some(4096)), request("rust compiler", Some(4096))];
    let out = BatchQueryEngine::batch_activate(&mut sys, &requests);
    assert_eq!(out.query_words.len(), 2, "should return one result per query");
    assert_eq!(out.query_words[0], vec!["quantum", "physics"]);
    assert_eq!(out.query_words[1], vec!["rust", "compiler"]);
}

#[test]
fn test_batch_activates_correct_subsets() {
    let mut sys = make_batch_system();
    let requests = vec![request("quantum physics", Some(4096)), request("neural network", Some(4096))];
    let out = BatchQueryEngine::batch_activate(&mut sys, &requests);
    let activated = |k: usize| out.query_subconscious[k].len() + out.query_conscious[k].len();
    assert!(activated(0) > 0, "quantum physics should activate occurrences");
    assert!(activated(1) > 0, "neural network should activate occurrences");
}

#[test]
fn test_batch_empty_requests() {
    let mut sys = make_batch_system();
    let out = BatchQueryEngine::batch_activate(&mut sys, &Vec::new());
    assert!(out.query_words.is_empty());
    assert!(out.activated_ids.is_empty());
}

#[test]
fn test_batch_activation_matches_sequential_for_shared_tokens() {
    let mut sys_seq = make_batch_system();
    let _ = QueryEngine::activate(&mut sys_seq, "quantum alpha");
    let _ = QueryEngine::activate(&mut sys_seq, "quantum beta");
    let _ = QueryEngine::activate(&mut sys_seq, "quantum gamma");
    let seq_counts = counts_of(&mut sys_seq, "quantum");

    let mut sys_batch = make_batch_system();
    let requests = vec![
        request("quantum alpha", Some(4096)),
        request("quantum beta", Some(4096)),
        request("quantum gamma", Some(4096)),
    ];
    let _ = BatchQueryEngine::batch_activate(&mut sys_batch, &requests);
    let batch_counts = counts_of(&mut sys_batch, "quantum");

    assert_eq!(seq_counts.len(), batch_counts.len(), "same number of quantum occurrences");
    for (i, (s, b)) in seq_counts.iter().zip(&batch_counts).enumerate() {
        assert_eq!(s, b, "occurrence {i}: sequential activation_count ({s}) must match batch ({b})");
    }
    for (i, count) in batch_counts.iter().enumerate() {
        assert!(*count >= 3, "occurrence {i}: expected activation_count >= 3, got {count}");
    }
}

#[test]
fn test_batch_activation_unique_tokens_count_once() {
    let mut sys = make_batch_system();
    let requests = vec![request("quantum physics", Some(4096)), request("rust compiler", Some(4096))];
    let _ = BatchQueryEngine::batch_activate(&mut sys, &requests);
    for (i, count) in counts_of(&mut sys, "physics").iter().enumerate() {
        assert_eq!(*count, 1, "physics occurrence {i}: expected 1, got {count}");
    }
    for (i, count) in counts_of(&mut sys, "compiler").iter().enumerate() {
        assert_eq!(*count, 1, "compiler occurrence {i}: expected 1, got {count}");
    }
}

#[test]
fn test_batch_overlapping_queries_share_activation() {
    let mut sys = make_batch_system();
    let requests = vec![request("quantum physics", Some(4096)), request("quantum computing", Some(4096))];
    let out = BatchQueryEngine::batch_activate(&mut sys, &requests);
    // "quantum" lies in both queries' locations.
    assert!(out.query_subconscious[0].len() > 0 && out.query_subconscious[1].len() > 0);
    assert_eq!(out.union_words, vec!["quantum", "physics", "computing"]);
    // Each of the two quantum occurrences is activated once per query holding it.
    assert_eq!(counts_of(&mut sys, "quantum"), vec![2, 3]);
}

#[test]
fn budget_defaults_when_unset() {
    assert_eq!(request("q", None).budget_tokens(), DEFAULT_BATCH_MAX_TOKENS);
    assert_eq!(request("q", Some(50)).budget_tokens(), 50);
}

#[test]
fn repeated_word_in_one_query_counts_once() {
    let mut sys = make_batch_system();
    let _ = BatchQueryEngine::batch_activate(&mut sys, &vec![request("wave wave WAVE", None)]);
    assert_eq!(counts_of(&mut sys, "wave"), vec![1]);
}

#[test]
fn saturated_counts_refuse_activation_and_change_nothing() {
    let mut sys = DAESystem::new("test");
    let mut ep = Episode::new("ep");
    ep.add_neighborhood(Neighborhood::from_tokens(&to_tokens(&["alpha", "beta"]), ""));
    sys.add_episode(ep);
    assert!(sys.has_headroom(5));
    sys.episodes[0].neighborhoods[0].occurrences[0].activation_count = u32::MAX - 1;
    sys.mark_dirty();
    assert!(sys.has_headroom(1));
    assert!(!sys.has_headroom(2));
    // One distinct word: one more activation fits.
    assert!(QueryEngine::try_activate(&mut sys, "alpha alpha").is_some());
    assert_eq!(sys.episodes[0].neighborhoods[0].occurrences[0].activation_count, u32::MAX);
    assert!(QueryEngine::try_activate(&mut sys, "beta").is_none());
    assert_eq!(sys.episodes[0].neighborhoods[0].occurrences[1].activation_count, 0);
    let requests = vec![request("beta", None)];
    assert!(BatchQueryEngine::try_batch_activate(&mut sys, &requests).is_none());
    assert_eq!(sys.episodes[0].neighborhoods[0].occurrences[1].activation_count, 0);
}

#[test]
fn batch_counts_equal_queries_run_in_turn() {
    let mut batched = make_batch_system();
    let mut in_turn = make_batch_system();
    let queries = ["quantum physics", "physics neural", "Quantum rust"];
    let requests: Vec<BatchQueryRequest> = queries.iter().map(|q| request(q, None)).collect();
    let batch = BatchQueryEngine::try_batch_activate(&mut batched, &requests).expect("headroom");
    let mut returned = 0;
    for q in queries {
        let (activation, ids) = QueryEngine::try_activate(&mut in_turn, q).expect("headroom");
        assert_eq!(ids.len(), activation.subconscious.len() + activation.conscious.len());
        returned += ids.len();
    }
    assert_eq!(batch.activated_ids.len(), returned);
    for w in ["quantum", "physics", "neural", "rust", "cell"] {
        assert_eq!(counts_of(&mut batched, w), counts_of(&mut in_turn, w));
    }
}
