use attention_matters::episode::Episode;
use attention_matters::neighborhood::Neighborhood;
use attention_matters::query::QueryEngine;
use attention_matters::surface::{compute_surface, SurfaceResult};
use attention_matters::system::{DAESystem, OccurrenceRef};

fn to_tokens(words: &[&str]) -> Vec<String> {
    words.iter().map(|s| s.to_string()).collect()
}

fn nbhd(words: &[&str]) -> Neighborhood {
    Neighborhood::from_tokens(&to_tokens(words), &words.join(" "))
}

/// Activate `query` and compute the surface, taking as positive the
/// subconscious locations whose word the conscious manifold also holds
/// (where the interference is positive).
fn surface_with_shared_positive(sys: &mut DAESystem, query: &str) -> SurfaceResult {
    let (activation, _) = QueryEngine::activate(sys, query);
    let conscious_words: Vec<String> =
        activation.conscious.iter().map(|r| sys.get_occurrence(*r).word.to_lowercase()).collect();
    let positive: Vec<OccurrenceRef> = activation
        .subconscious
        .iter()
        .copied()
        .filter(|r| conscious_words.contains(&sys.get_occurrence(*r).word.to_lowercase()))
        .collect();
    compute_surface(sys, &positive, &activation)
}

/// Activate `query` and compute the surface with no positive interference.
fn surface_without_positive(sys: &mut DAESystem, query: &str) -> SurfaceResult {
    let (activation, _) = QueryEngine::activate(sys, query);
    compute_surface(sys, &Vec::new(), &activation)
}

#[test]
fn test_positive_interference_surfaces() {
    let mut sys = DAESystem::new("test");
    let mut ep = Episode::new("memories");
    ep.add_neighborhood(nbhd(&["quantum", "physics"]));
    sys.add_episode(ep);
    sys.add_to_conscious("quantum mechanics");
    let surface = surface_with_shared_positive(&mut sys, "quantum");
    assert!(!surface.surfaced.is_empty());
}

#[test]
fn test_novel_words_surface() {
    let mut sys = DAESystem::new("test");
    let mut ep = Episode::new("memories");
    ep.add_neighborhood(nbhd(&["quantum", "physics", "novel"]));
    sys.add_episode(ep);
    sys.add_to_conscious("quantum mechanics");
    let surface = surface_without_positive(&mut sys, "quantum physics novel");
    let novel_surfaced = surface.surfaced.iter().any(|r| sys.get_occurrence(*r).word == "novel");
    assert!(novel_surfaced, "novel word should be surfaced");
    // "quantum" is held by the conscious manifold: it surfaces only through interference.
    assert!(!surface.surfaced.iter().any(|r| sys.get_occurrence(*r).word == "quantum"));
}

#[test]
fn test_vivid_neighborhood() {
    let mut sys = DAESystem::new("test");
    let mut ep = Episode::new("memories");
    ep.add_neighborhood(nbhd(&["alpha", "beta"]));
    sys.add_episode(ep);
    sys.add_to_conscious("alpha beta gamma");
    let surface = surface_with_shared_positive(&mut sys, "alpha beta");
    assert!(!surface.vivid_neighborhood_ids.is_empty(), "neighborhood with 100% surfaced should be vivid");
}

#[test]
fn test_non_vivid_neighborhood() {
    let mut sys = DAESystem::new("test");
    let mut ep = Episode::new("memories");
    ep.add_neighborhood(nbhd(&["shared", "unique1", "unique2", "unique3"]));
    sys.add_episode(ep);
    sys.add_to_conscious("shared different");
    let surface = surface_with_shared_positive(&mut sys, "shared");
    assert!(surface.vivid_neighborhood_ids.is_empty(), "neighborhood with only 25% surfaced should not be vivid");
}

#[test]
fn test_vivid_episode() {
    let mut sys = DAESystem::new("test");
    let mut ep = Episode::new("full-overlap");
    ep.add_neighborhood(nbhd(&["word1", "word2"]));
    ep.add_neighborhood(nbhd(&["word3", "word4"]));
    sys.add_episode(ep);
    sys.add_to_conscious("word1 word2 word3 word4");
    let surface = surface_with_shared_positive(&mut sys, "word1 word2 word3 word4");
    assert!(!surface.surfaced.is_empty(), "all words should surface");
    assert!(!surface.vivid_neighborhood_ids.is_empty(), "neighborhoods with 100% surfaced should be vivid");
    // 4 of the 8 occurrences lie in the episode: its mass is not above one half.
    assert!(surface.vivid_episode_ids.is_empty());
}

#[test]
fn test_fragment_extraction() {
    let mut sys = DAESystem::new("test");
    let mut ep = Episode::new("memories");
    ep.add_neighborhood(nbhd(&["cat", "dog"]));
    ep.add_neighborhood(nbhd(&["cat", "fish", "bird", "snake"]));
    sys.add_episode(ep);
    sys.add_to_conscious("cat dog");
    let surface = surface_with_shared_positive(&mut sys, "cat dog fish bird snake");
    assert!(!surface.surfaced.is_empty(), "should have surfaced occurrences");
}

#[test]
fn test_empty_activation() {
    let mut sys = DAESystem::new("test");
    let mut ep = Episode::new("memories");
    ep.add_neighborhood(nbhd(&["alpha", "beta"]));
    sys.add_episode(ep);
    let surface = surface_with_shared_positive(&mut sys, "nonexistent words here");
    assert!(surface.surfaced.is_empty(), "no words activated → empty surface");
    assert!(surface.vivid_neighborhood_ids.is_empty());
    assert!(surface.vivid_episode_ids.is_empty());
    assert!(surface.fragments.is_empty());
    assert!(surface.neighborhood_surfaced_counts.is_empty());
}

#[test]
fn test_all_surfaced_neighborhoods_vivid() {
    let mut sys = DAESystem::new("test");
    let mut ep = Episode::new("all-match");
    ep.add_neighborhood(nbhd(&["cat", "dog"]));
    ep.add_neighborhood(nbhd(&["fish", "bird"]));
    sys.add_episode(ep);
    sys.add_to_conscious("unrelated other");
    let surface = surface_with_shared_positive(&mut sys, "cat dog fish bird");
    assert_eq!(
        surface.vivid_neighborhood_ids.len(),
        2,
        "both neighborhoods should be vivid when all words surface as novel"
    );
}

#[test]
fn test_is_vivid_direct() {
    let nbhd = nbhd(&["a", "b", "c", "d"]);
    assert!(nbhd.is_vivid(6), "4 > 6*0.5=3 should be vivid");
    assert!(!nbhd.is_vivid(8), "4 > 8*0.5=4 should NOT be vivid (equal, not greater)");
    assert!(!nbhd.is_vivid(10), "4 > 10*0.5=5 should NOT be vivid");
    assert!(nbhd.is_vivid(2), "4 > 2*0.5=1 should be vivid");
    assert!(!nbhd.is_vivid(0), "zero episode count should not be vivid");
}

#[test]
fn test_surfaced_counts_per_neighborhood() {
    let mut sys = DAESystem::new("test");
    let mut ep = Episode::new("memories");
    let n1 = nbhd(&["shared", "only1"]);
    let n1_id = n1.id;
    ep.add_neighborhood(n1);
    let n2 = nbhd(&["shared", "only2", "only3"]);
    let n2_id = n2.id;
    ep.add_neighborhood(n2);
    sys.add_episode(ep);
    sys.add_to_conscious("shared conscious");
    let surface = surface_with_shared_positive(&mut sys, "shared only1 only2 only3");
    assert!(
        surface.neighborhood_surfaced_counts.contains_key(&n1_id)
            || surface.neighborhood_surfaced_counts.contains_key(&n2_id),
        "should track surfaced counts per neighborhood"
    );
    assert_eq!(surface.neighborhood_surfaced_counts[&n1_id], 2);
    assert_eq!(surface.neighborhood_surfaced_counts[&n2_id], 3);
}

#[test]
fn surfaced_locations_appear_once_and_fragments_avoid_vivid_structures() {
    let mut sys = DAESystem::new("test");
    let mut ep = Episode::new("memories");
    ep.add_neighborhood(nbhd(&["cat", "dog"]));
    ep.add_neighborhood(nbhd(&["cat", "fish", "bird", "snake", "eel"]));
    sys.add_episode(ep);
    let mut big = Episode::new("big");
    big.add_neighborhood(nbhd(&["x1", "x2", "x3", "x4", "x5", "x6", "x7", "x8", "x9"]));
    sys.add_episode(big);
    sys.add_to_conscious("cat dog");
    let (activation, _) = QueryEngine::activate(&mut sys, "cat dog fish");
    // The same positive location twice: it surfaces once.
    let positive = vec![activation.subconscious[0], activation.subconscious[0]];
    let surface = compute_surface(&sys, &positive, &activation);
    assert_eq!(surface.surfaced, vec![activation.subconscious[0], activation.subconscious[3]]);
    // cat of the first neighborhood and fish of the second surfaced: neither is vivid.
    assert!(surface.vivid_neighborhood_ids.is_empty());
    assert_eq!(surface.fragments, surface.surfaced);
}
