use attention_matters::episode::Episode;
use attention_matters::forget::{cold_count, collect_cold, forget_conscious, forget_episode, ForgetError};
use attention_matters::neighborhood::Neighborhood;
use attention_matters::system::DAESystem;
use attention_matters::tokenizer::ingest_text;

fn nbhd(words: &[&str]) -> Neighborhood {
    let tokens: Vec<String> = words.iter().map(|s| s.to_string()).collect();
    Neighborhood::from_tokens(&tokens, &words.join(" "))
}

fn words_of(sys: &DAESystem) -> Vec<String> {
    sys.episodes
        .iter()
        .chain(std::iter::once(&sys.conscious_episode))
        .flat_map(|e| e.neighborhoods.iter())
        .flat_map(|n| n.occurrences.iter())
        .map(|o| o.word.clone())
        .collect()
}

#[test]
fn forget_term() {
    let mut sys = DAESystem::new("test");
    sys.add_episode(ingest_text(
        "Authentication uses JWT tokens for session management. \
         Password hashing employs bcrypt with salt rounds. \
         Token refresh handles expiration transparently.",
        Some("forget"),
    ));
    let before = sys.n();
    let (occurrences, neighborhoods, episodes) = attention_matters::forget::forget_term(&mut sys, "password");
    assert!(occurrences > 0, "the word was there");
    assert_eq!((neighborhoods, episodes), (0, 0));
    assert_eq!(sys.n(), before - occurrences);
    assert!(!words_of(&sys).iter().any(|w| w.to_lowercase() == "password"));
}

#[test]
fn forget_term_not_found() {
    let mut sys = DAESystem::new("test");
    assert_eq!(attention_matters::forget::forget_term(&mut sys, "nonexistent"), (0, 0, 0));
}

#[test]
fn forgetting_a_word_drops_what_it_empties() {
    let mut sys = DAESystem::new("test");
    let mut ep = Episode::new("mixed");
    ep.add_neighborhood(nbhd(&["Alpha", "beta"]));
    ep.add_neighborhood(nbhd(&["alpha", "ALPHA"]));
    sys.add_episode(ep);
    let mut lone = Episode::new("lone");
    lone.add_neighborhood(nbhd(&["alpha"]));
    sys.add_episode(lone);
    sys.add_to_conscious("alpha gamma");
    sys.add_to_conscious("Alpha");
    let (o, n, e) = attention_matters::forget::forget_term(&mut sys, "ALPHA");
    // Four subconscious and two conscious occurrences go; the second
    // neighborhood, the "lone" episode and the second conscious memory empty out.
    assert_eq!((o, n, e), (6, 3, 1));
    assert_eq!(sys.episodes.len(), 1);
    assert_eq!(sys.episodes[0].neighborhoods.len(), 1);
    assert_eq!(sys.episodes[0].neighborhoods[0].occurrences[0].word, "beta");
    assert_eq!(sys.conscious_episode.neighborhoods.len(), 1);
    assert_eq!(words_of(&sys), vec!["beta".to_string(), "gamma".to_string()]);
    // The memory still answers queries after the change.
    assert_eq!(sys.activate_word("beta").subconscious.len(), 1);
}

#[test]
fn forgetting_an_episode() {
    let mut sys = DAESystem::new("test");
    let mut a = Episode::new("a");
    a.add_neighborhood(nbhd(&["one", "two"]));
    let a_id = a.id;
    sys.add_episode(a);
    let mut b = Episode::new("b");
    b.add_neighborhood(nbhd(&["three"]));
    sys.add_episode(b);
    assert_eq!(forget_episode(&mut sys, 12345), Ok(0));
    assert_eq!(sys.episodes.len(), 2);
    assert_eq!(forget_episode(&mut sys, a_id), Ok(2));
    assert_eq!(sys.episodes.len(), 1);
    assert_eq!(sys.episodes[0].name, "b");
    let conscious_id = sys.conscious_episode.id;
    assert_eq!(forget_episode(&mut sys, conscious_id), Err(ForgetError::ConsciousEpisode));
    assert_eq!(sys.episodes.len(), 1);
}

#[test]
fn forgetting_a_conscious_memory() {
    let mut sys = DAESystem::new("test");
    let mut ep = Episode::new("ep");
    let sub = nbhd(&["deep", "memory"]);
    let sub_id = sub.id;
    ep.add_neighborhood(sub);
    sys.add_episode(ep);
    let keep = sys.add_to_conscious("keep this");
    let drop = sys.add_to_conscious("drop this one");
    assert_eq!(forget_conscious(&mut sys, drop), Ok(3));
    assert_eq!(sys.conscious_episode.neighborhoods.len(), 1);
    assert_eq!(sys.conscious_episode.neighborhoods[0].id, keep);
    assert_eq!(forget_conscious(&mut sys, sub_id), Err(ForgetError::NotConscious));
    assert_eq!(sys.episodes[0].neighborhoods.len(), 1);
    assert_eq!(forget_conscious(&mut sys, 777), Ok(0));
    assert_eq!(sys.conscious_episode.neighborhoods.len(), 1);
}

#[test]
fn gc_dry_run() {
    let mut sys = DAESystem::new("test");
    sys.add_episode(ingest_text(
        "Memory garbage collection testing with enough words. \
         Second sentence provides additional content. \
         Third sentence completes the paragraph for chunking.",
        Some("gc-data"),
    ));
    let before = sys.n();
    // Freshly ingested occurrences were never activated: all are eligible at floor 1.
    assert_eq!(cold_count(&sys, 1), before);
    assert_eq!(sys.n(), before, "counting changes nothing");
}

#[test]
fn gc_evicts_cold_occurrences() {
    let mut sys = DAESystem::new("test");
    sys.add_episode(ingest_text(
        "Quantum entanglement connects particles across spacetime. \
         Bell inequality violations confirm nonlocal correlations. \
         Decoherence destroys quantum superposition in macroscopic systems.",
        Some("gc-cold"),
    ));
    let (occurrences, _, episodes) = collect_cold(&mut sys, 99);
    assert!(occurrences > 0);
    assert_eq!(episodes, 1);
    assert_eq!(sys.episodes.len(), 0);
}

#[test]
fn collection_keeps_warm_occurrences_and_conscious_memory() {
    let mut sys = DAESystem::new("test");
    let mut ep = Episode::new("ep");
    ep.add_neighborhood(nbhd(&["warm", "cold"]));
    ep.add_neighborhood(nbhd(&["chilly"]));
    sys.add_episode(ep);
    sys.add_to_conscious("cold conscious");
    sys.activate_word("warm");
    sys.activate_word("warm");
    // warm: 2; cold, chilly: 0 (the conscious words are at 1 and stay).
    assert_eq!(cold_count(&sys, 1), 2);
    let before = sys.n();
    let (o, n, e) = collect_cold(&mut sys, 1);
    assert_eq!((o, n, e), (2, 1, 0));
    assert_eq!(sys.n(), before - 2);
    assert_eq!(sys.episodes[0].neighborhoods.len(), 1);
    assert_eq!(sys.episodes[0].neighborhoods[0].occurrences.len(), 1);
    assert_eq!(sys.episodes[0].neighborhoods[0].occurrences[0].word, "warm");
    assert_eq!(sys.conscious_episode.neighborhoods[0].occurrences.len(), 2);
    assert_eq!(cold_count(&sys, 1), 0);
}
