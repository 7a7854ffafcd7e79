use attention_matters::compose::index_summary;
use attention_matters::episode::Episode;
use attention_matters::neighborhood::Neighborhood;
use attention_matters::query::QueryEngine;
use attention_matters::stats::{activation_summary, rank_word_totals, word_totals};
use attention_matters::system::DAESystem;
use attention_matters::colors::Colors;
use attention_matters::http_server::tool_result_payload;
use attention_matters::json::Json;
use attention_matters::jsonrpc::tool_result_text;
use attention_matters::sync_dispatch::{safe_prefix, truncate_text};
use attention_matters::wire::{ConversationMessage, CURRENT_VERSION};

#[test]
fn colors_follow_no_color_term_and_tty() {
    let c = Colors::for_terminal(false, Some("xterm"), true);
    assert_eq!(c.bold, "\x1b[1m");
    assert_eq!(c.reset, "\x1b[0m");
    assert_eq!(c.cyan, "\x1b[36m");
    let c = Colors::for_terminal(true, Some("xterm"), true);
    assert_eq!(c.bold, "");
    let c = Colors::for_terminal(false, Some("dumb"), true);
    assert_eq!(c.yellow, "");
    let c = Colors::for_terminal(false, None, false);
    assert_eq!(c.dim, "");
    let c = Colors::stdout(true, None);
    assert_eq!(c.bold, "");
}

#[test]
fn safe_prefix_never_splits_a_character() {
    assert_eq!(safe_prefix("abcdefghij", 8), "abcdefgh");
    assert_eq!(safe_prefix("abc", 8), "abc");
    // "é" takes two bytes: the prefix stops before it.
    assert_eq!(safe_prefix("abcdefgé", 8), "abcdefg");
    assert_eq!(safe_prefix("ééé", 3), "é");
    assert_eq!(safe_prefix("x", 0), "");
}

#[test]
fn truncate_text_collapses_whitespace_and_cuts_by_chars() {
    assert_eq!(truncate_text("  hello \n\t world  ", 80), "hello world");
    assert_eq!(truncate_text("abcdefghij", 8), "abcde...");
    assert_eq!(truncate_text("abcdefghij", 10), "abcdefghij");
    assert_eq!(truncate_text("abcdef", 2), "...");
    assert_eq!(truncate_text("ééééé", 4), "é...");
}

#[test]
fn tool_result_payload_reads_the_text_item() {
    let r = tool_result_text("{\"key\":\"value\"}");
    assert_eq!(tool_result_payload(&r), Some("{\"key\":\"value\"}".to_string()));
    let raw = Json::object(vec![("key".to_string(), Json::string("value"))]);
    assert_eq!(tool_result_payload(&raw), None);
}

#[test]
fn wire_version_and_messages() {
    assert_eq!(CURRENT_VERSION, "0.7.2");
    let m = ConversationMessage::new("user".to_string(), "hi".to_string());
    assert_eq!(m.role, "user");
    assert_eq!(m.content, "hi");
}

#[test]
fn index_summary_keeps_short_text_and_cuts_long_text_on_a_boundary() {
    assert_eq!(index_summary("short text"), "short text");
    let exact = "a".repeat(100);
    assert_eq!(index_summary(&exact), exact);
    let long = "b".repeat(150);
    assert_eq!(index_summary(&long), format!("{}...", "b".repeat(100)));
    // 99 ASCII bytes then a two-byte character: the character would cross the limit.
    let mixed = format!("{}é tail", "c".repeat(99));
    assert_eq!(index_summary(&mixed), format!("{}...", "c".repeat(99)));
}

#[test]
fn activation_summary_counts_every_occurrence_once() {
    let words = |w: &[&str]| -> Vec<String> { w.iter().map(|s| s.to_string()).collect() };
    let mut sys = DAESystem::new("test");
    let empty = activation_summary(&sys);
    assert_eq!((empty.total, empty.sum, empty.max, empty.zero), (0, 0, 0, 0));
    let mut ep = Episode::new("ep");
    ep.add_neighborhood(Neighborhood::from_tokens(&words(&["apple", "pie", "apple"]), ""));
    ep.add_neighborhood(Neighborhood::from_tokens(&words(&["cherry", "pie"]), ""));
    sys.add_episode(ep);
    sys.add_to_conscious("apple orchard");
    sys.activate_word("apple");
    sys.activate_word("apple");
    let s = activation_summary(&sys);
    assert_eq!(s.total, 7);
    assert_eq!(s.total, sys.n());
    // apple: two subconscious occurrences at 2, the conscious one at 1 + 2;
    // orchard: 1 from being marked salient.
    assert_eq!(s.sum, 2 + 2 + 3 + 1);
    assert_eq!(s.max, 3);
    assert_eq!(s.zero, 3);
}

#[test]
fn rebuilt_indexes_find_every_neighborhood_and_word() {
    let words = |w: &[&str]| -> Vec<String> { w.iter().map(|s| s.to_string()).collect() };
    let mut sys = DAESystem::new("test");
    let mut ep = Episode::new("ep");
    ep.add_neighborhood(Neighborhood::from_tokens(&words(&["Apple", "pie"]), ""));
    ep.add_neighborhood(Neighborhood::from_tokens(&words(&["apple"]), ""));
    sys.add_episode(ep);
    let c = sys.add_to_conscious("APPLE tart");
    sys.rebuild_indexes();
    let refs = sys.get_word_occurrences("aPPle");
    assert_eq!(refs.len(), 3);
    assert!(refs[..2].iter().all(|r| r.episode_idx == 0));
    assert_eq!(refs[2].episode_idx, usize::MAX);
    for n in 0..2 {
        let id = sys.episodes[0].neighborhoods[n].id;
        let r = sys.get_neighborhood_ref(id).expect("indexed");
        assert_eq!((r.episode_idx, r.neighborhood_idx), (0, n));
    }
    let r = sys.get_neighborhood_ref(c).expect("indexed");
    assert_eq!((r.episode_idx, r.neighborhood_idx), (usize::MAX, 0));
}

#[test]
fn word_totals_count_each_word_once_in_order_of_appearance() {
    let mut sys = DAESystem::new("test");
    let mut ep = Episode::new("notes");
    ep.add_neighborhood(Neighborhood::from_tokens(&vec!["apple".to_string(), "banana".to_string()], "apple banana"));
    ep.add_neighborhood(Neighborhood::from_tokens(&vec!["apple".to_string()], "apple"));
    sys.add_episode(ep);
    sys.add_to_conscious("apple pie");
    let _ = QueryEngine::activate(&mut sys, "apple");
    let _ = QueryEngine::activate(&mut sys, "apple banana");
    let mut expected: Vec<(String, u128, usize)> = Vec::new();
    let mut all: Vec<(String, u32)> = Vec::new();
    for e in sys.episodes.iter().chain(std::iter::once(&sys.conscious_episode)) {
        for n in &e.neighborhoods {
            for o in &n.occurrences {
                all.push((o.word.clone(), o.activation_count));
            }
        }
    }
    for (w, c) in &all {
        match expected.iter_mut().find(|x| &x.0 == w) {
            Some(x) => {
                x.1 += u128::from(*c);
                x.2 += 1;
            }
            None => expected.push((w.clone(), u128::from(*c), 1)),
        }
    }
    let totals = word_totals(&sys);
    let got: Vec<(String, u128, usize)> = totals.iter().map(|t| (t.word.clone(), t.activation, t.occurrences)).collect();
    assert_eq!(got, expected);
    assert_eq!(got.iter().map(|t| t.0.as_str()).collect::<Vec<_>>(), vec!["apple", "banana", "pie"]);
    assert_eq!(got[0].2, 3);
    let ranked = rank_word_totals(totals);
    assert_eq!(ranked.len(), 3);
    assert_eq!(ranked[0].word, "apple");
    assert!(ranked.windows(2).all(|w| w[0].activation >= w[1].activation));
}
