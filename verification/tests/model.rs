use attention_matters::episode::Episode;
use attention_matters::neighborhood::{Neighborhood, NeighborhoodType};
use attention_matters::occurrence::Occurrence;
use attention_matters::system::{DAESystem, OccurrenceRef};

fn to_tokens(words: &[&str]) -> Vec<String> {
    words.iter().map(|s| s.to_string()).collect()
}

fn make_episode(name: &str, word_counts: &[usize]) -> Episode {
    let mut ep = Episode::new(name);
    for &wc in word_counts {
        let tokens: Vec<String> = (0..wc).map(|i| format!("word{i}")).collect();
        let n = Neighborhood::from_tokens(&tokens, "");
        ep.add_neighborhood(n);
    }
    ep
}

fn make_occ(word: &str, activation_count: u32) -> Occurrence {
    let mut o = Occurrence::new(word.to_string(), 1);
    o.activation_count = activation_count;
    o
}

fn make_system_with_data() -> DAESystem {
    let mut sys = DAESystem::new("test");

    // Episode 1: two neighborhoods
    let mut ep1 = Episode::new("episode1");
    let n1 = Neighborhood::from_tokens(&to_tokens(&["hello", "world"]), "hello world");
    ep1.add_neighborhood(n1);
    let n2 = Neighborhood::from_tokens(&to_tokens(&["hello", "rust"]), "hello rust");
    ep1.add_neighborhood(n2);
    sys.add_episode(ep1);

    // Conscious: one neighborhood
    sys.add_to_conscious("hello test");

    sys
}

// --- Episode ---

#[test]
fn test_count_across_neighborhoods() {
    let ep = make_episode("test", &[3, 5, 2]);
    assert_eq!(ep.count(), 10);
}

#[test]
fn test_all_occurrences() {
    let ep = make_episode("test", &[3, 2]);
    let all = ep.all_occurrences();
    assert_eq!(all.len(), 5);
}

#[test]
fn test_display_name() {
    let ep = Episode::new("My Episode");
    assert_eq!(ep.display_name(), "My Episode");
    let ep2 = Episode::new("");
    assert_eq!(ep2.display_name(), "Memory");
}

#[test]
fn test_conscious_episode() {
    let ep = Episode::new_conscious();
    assert!(ep.is_conscious);
}

#[test]
fn episode_test_total_activation() {
    let mut ep = make_episode("test", &[2]);
    ep.set_activation_count(0, 0, 5);
    ep.set_activation_count(0, 1, 5);
    assert_eq!(ep.total_activation(), 10);
}

#[test]
fn all_occurrences_come_in_neighborhood_order() {
    let mut ep = Episode::new("e");
    ep.add_neighborhood(Neighborhood::from_tokens(&to_tokens(&["a", "b"]), ""));
    ep.add_neighborhood(Neighborhood::from_tokens(&to_tokens(&["c"]), ""));
    let words: Vec<&str> = ep.all_occurrences().iter().map(|o| o.word.as_str()).collect();
    assert_eq!(words, vec!["a", "b", "c"]);
}

// --- Neighborhood ---

#[test]
fn test_activate_word() {
    let tokens = to_tokens(&["hello", "world", "hello"]);
    let mut n = Neighborhood::from_tokens(&tokens, "hello world hello");

    let activated = n.activate_word("hello");
    assert_eq!(activated.len(), 2);
    assert_eq!(n.occurrences[0].activation_count, 1);
    assert_eq!(n.occurrences[1].activation_count, 0);
    assert_eq!(n.occurrences[2].activation_count, 1);
}

#[test]
fn neighborhood_test_total_activation() {
    let tokens = to_tokens(&["a", "b"]);
    let mut n = Neighborhood::from_tokens(&tokens, "a b");
    n.set_activation_count(0, 3);
    n.set_activation_count(1, 7);
    assert_eq!(n.total_activation(), 10);
}

#[test]
fn activate_word_ignores_case() {
    let mut n = Neighborhood::from_tokens(&to_tokens(&["Hello", "world"]), "");
    let activated = n.activate_word("HELLO");
    assert_eq!(activated, vec![0]);
    assert_eq!(n.occurrences[0].activation_count, 1);
}

#[test]
fn from_tokens_keeps_words_in_order_and_fresh() {
    let n = Neighborhood::from_tokens(&to_tokens(&["x", "y", "z"]), "x y z");
    let words: Vec<&str> = n.occurrences.iter().map(|o| o.word.as_str()).collect();
    assert_eq!(words, vec!["x", "y", "z"]);
    assert!(n.occurrences.iter().all(|o| o.activation_count == 0 && o.neighborhood_id == n.id));
    assert_eq!(n.count(), 3);
    assert!(matches!(n.neighborhood_type, NeighborhoodType::Memory));
}

#[test]
fn neighborhood_type_names_round_trip() {
    for t in [
        NeighborhoodType::Memory,
        NeighborhoodType::Decision,
        NeighborhoodType::Preference,
        NeighborhoodType::Insight,
    ] {
        assert!(NeighborhoodType::from_str_lossy(t.as_str()) == t);
    }
    assert!(NeighborhoodType::from_str_lossy("unknown") == NeighborhoodType::Memory);
}

// --- Occurrence ---

#[test]
fn test_activate() {
    let mut occ = make_occ("hello", 0);
    assert_eq!(occ.activation_count, 0);
    occ.activate();
    assert_eq!(occ.activation_count, 1);
    occ.activate();
    assert_eq!(occ.activation_count, 2);
}

#[test]
fn test_is_anchored() {
    assert!(make_occ("test", 6).is_anchored(10));
    assert!(!make_occ("test", 4).is_anchored(10));
}

#[test]
fn anchored_edge_cases() {
    // Exactly half is not more than half.
    assert!(!make_occ("test", 5).is_anchored(10));
    // A container never activated anchors everything.
    assert!(make_occ("test", 0).is_anchored(0));
}

// --- System ---

#[test]
fn test_n_counts_both_manifolds() {
    let sys = make_system_with_data();
    // subconscious: 2+2 = 4, conscious: 2 = total 6
    assert_eq!(sys.n(), 6);
}

#[test]
fn test_lazy_index_rebuild() {
    let mut sys = make_system_with_data();
    // First access rebuilds
    assert_eq!(sys.word_neighborhood_count("hello"), 3);

    // Adding an episode marks the index stale
    let mut ep = Episode::new("ep2");
    ep.add_neighborhood(Neighborhood::from_tokens(&to_tokens(&["new", "word"]), ""));
    sys.add_episode(ep);

    // Next access rebuilds again and sees the new word
    assert_eq!(sys.word_neighborhood_count("new"), 1);
}

#[test]
fn test_activate_word_partitions() {
    let mut sys = make_system_with_data();
    let result = sys.activate_word("hello");

    // "hello" appears in 2 subconscious neighborhoods, 1 conscious
    assert_eq!(result.subconscious.len(), 2);
    assert_eq!(result.conscious.len(), 1);

    for r in &result.subconscious {
        assert_eq!(sys.get_occurrence(*r).activation_count, 1);
    }
    // Conscious occurrences were pre-activated in add_to_conscious (+1), then activated again (+1) = 2
    for r in &result.conscious {
        assert_eq!(sys.get_occurrence(*r).activation_count, 2);
    }
}

#[test]
fn test_add_to_conscious_pre_activates() {
    let mut sys = DAESystem::new("test");
    sys.add_to_conscious("hello world");
    for occ in sys.conscious_episode.all_occurrences() {
        assert_eq!(occ.activation_count, 1, "conscious occ '{}' not pre-activated", occ.word);
    }
}

#[test]
fn test_get_neighborhood_for_occurrence() {
    let mut sys = make_system_with_data();
    let result = sys.activate_word("hello");
    let r = result.subconscious[0];
    let nbhd = sys.get_neighborhood_for_occurrence(r);
    assert!(nbhd.count() > 0);
}

#[test]
fn test_get_episode_for_occurrence() {
    let mut sys = make_system_with_data();
    let result = sys.activate_word("hello");
    let sub_ep = sys.get_episode_for_occurrence(result.subconscious[0]);
    assert!(!sub_ep.is_conscious);
    let con_ep = sys.get_episode_for_occurrence(result.conscious[0]);
    assert!(con_ep.is_conscious);
}

#[test]
fn activate_word_returns_refs_in_layout_order() {
    let mut sys = make_system_with_data();
    let result = sys.activate_word("hello");
    let subs: Vec<(usize, usize, usize)> = result
        .subconscious
        .iter()
        .map(|r| (r.episode_idx, r.neighborhood_idx, r.occurrence_idx))
        .collect();
    assert_eq!(subs, vec![(0, 0, 0), (0, 1, 0)]);
    assert_eq!(result.conscious[0].episode_idx, usize::MAX);
    assert!(result.conscious[0].is_conscious());
}

#[test]
fn unknown_word_activates_nothing() {
    let mut sys = make_system_with_data();
    let before = sys.n();
    let result = sys.activate_word("absent");
    assert!(result.subconscious.is_empty() && result.conscious.is_empty());
    assert_eq!(sys.n(), before);
    assert!(sys.get_word_occurrences("absent").is_empty());
}

#[test]
fn neighborhood_lookup_by_id() {
    let mut sys = make_system_with_data();
    let id = sys.episodes[0].neighborhoods[1].id;
    let r = sys.get_neighborhood_ref(id).unwrap();
    assert_eq!((r.episode_idx, r.neighborhood_idx), (0, 1));
    assert_eq!(sys.get_episode_idx_for_neighborhood(id), Some(0));
    let cid = sys.conscious_episode.neighborhoods[0].id;
    assert_eq!(sys.get_episode_idx_for_neighborhood(cid), Some(usize::MAX));
    assert_eq!(sys.get_neighborhood_ref(12345), None);
    assert_eq!(sys.total_neighborhoods(), 3);
}

#[test]
fn set_activation_count_changes_one_occurrence() {
    let mut sys = make_system_with_data();
    let r = OccurrenceRef { episode_idx: 0, neighborhood_idx: 1, occurrence_idx: 1 };
    sys.set_activation_count(r, 9);
    assert_eq!(sys.get_occurrence(r).activation_count, 9);
    assert_eq!(sys.episodes[0].total_activation(), 9);
}
