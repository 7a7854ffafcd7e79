use attention_matters::episode::Episode;
use attention_matters::feedback::{apply_boost_activation, apply_demote, feedback_targets};
use attention_matters::neighborhood::Neighborhood;
use attention_matters::query::QueryEngine;
use attention_matters::system::DAESystem;

fn to_tokens(words: &[&str]) -> Vec<String> {
    words.iter().map(|s| s.to_string()).collect()
}

fn make_feedback_system() -> DAESystem {
    let mut sys = DAESystem::new("test");
    let mut ep = Episode::new("science");
    ep.add_neighborhood(Neighborhood::from_tokens(
        &to_tokens(&["quantum", "physics", "particle"]),
        "quantum physics particle",
    ));
    ep.add_neighborhood(Neighborhood::from_tokens(
        &to_tokens(&["quantum", "computing", "algorithm"]),
        "quantum computing algorithm",
    ));
    sys.add_episode(ep);
    sys.add_to_conscious("quantum mechanics");
    // Activate to give occurrences non-zero activation
    let _ = QueryEngine::activate(&mut sys, "quantum physics computing");
    sys
}

fn activation_of(sys: &DAESystem, n: usize) -> u32 {
    sys.episodes[0].neighborhoods[n].occurrences.iter().map(|o| o.activation_count).sum()
}

#[test]
fn test_demote_decreases_activation() {
    let mut sys = make_feedback_system();
    let nbhd_id = sys.episodes[0].neighborhoods[0].id;
    let before_activation = activation_of(&sys, 0);
    let (_, targets) = feedback_targets(&mut sys, "quantum physics", &vec![nbhd_id]);
    let (demoted, _) = apply_demote(&mut sys, &targets);
    assert!(demoted > 0, "should have demoted some occurrences");
    let after_activation = activation_of(&sys, 0);
    assert!(
        after_activation < before_activation,
        "demote should decrease activation: {before_activation} -> {after_activation}"
    );
}

#[test]
fn test_demote_floors_at_zero() {
    let mut sys = DAESystem::new("test");
    let mut ep = Episode::new("test");
    ep.add_neighborhood(Neighborhood::from_tokens(&to_tokens(&["hello", "world"]), "hello world"));
    sys.add_episode(ep);

    // Occurrences start at activation_count = 0
    let nbhd_id = sys.episodes[0].neighborhoods[0].id;
    let (_, targets) = feedback_targets(&mut sys, "hello", &vec![nbhd_id]);
    let (demoted, record) = apply_demote(&mut sys, &targets);
    for occ in &sys.episodes[0].neighborhoods[0].occurrences {
        assert_eq!(occ.activation_count, 0);
    }
    assert_eq!(demoted, 0);
    assert!(record.is_empty());
}

#[test]
fn test_feedback_nonexistent_neighborhood() {
    let mut sys = make_feedback_system();
    let (all, targets) = feedback_targets(&mut sys, "quantum", &vec![987654321u128]);
    assert!(!all.is_empty());
    assert!(targets.is_empty());
    assert!(apply_boost_activation(&mut sys, &targets).is_empty());
}

#[test]
fn test_feedback_empty_query() {
    let mut sys = make_feedback_system();
    let nbhd_id = sys.episodes[0].neighborhoods[0].id;
    let (all, targets) = feedback_targets(&mut sys, "", &vec![nbhd_id]);
    assert!(all.is_empty() && targets.is_empty());
}

#[test]
fn test_demote_manifest_tracks_demoted_activations() {
    let mut sys = make_feedback_system();
    let nbhd_id = sys.episodes[0].neighborhoods[0].id;
    let (_, targets) = feedback_targets(&mut sys, "quantum physics", &vec![nbhd_id]);
    let (demoted, record) = apply_demote(&mut sys, &targets);
    assert!(demoted > 0);
    assert_eq!(record.len(), demoted, "demoted_activations count should match demoted count");
    for (id, count) in &record {
        assert_ne!(*id, 0, "ID should not be nil");
        let occ = sys.episodes[0].neighborhoods[0]
            .occurrences
            .iter()
            .find(|o| o.id == *id)
            .expect("demoted occurrence lies in the target neighborhood");
        assert_eq!(occ.activation_count, *count);
    }
}

#[test]
fn demote_lowers_each_count_by_two_saturating() {
    let mut sys = make_feedback_system();
    let nbhd_id = sys.episodes[0].neighborhoods[0].id;
    // "quantum" and "physics" were activated once each by the query.
    let (_, targets) = feedback_targets(&mut sys, "quantum physics", &vec![nbhd_id]);
    assert_eq!(targets.len(), 2);
    let (demoted, record) = apply_demote(&mut sys, &targets);
    assert_eq!(demoted, 2);
    assert!(record.iter().all(|(_, c)| *c == 0));
}

#[test]
fn boost_activation_bumps_each_target_once() {
    let mut sys = make_feedback_system();
    let nbhd_id = sys.episodes[0].neighborhoods[1].id;
    let before = activation_of(&sys, 1);
    let (_, targets) = feedback_targets(&mut sys, "quantum computing", &vec![nbhd_id]);
    let ids = apply_boost_activation(&mut sys, &targets);
    assert_eq!(ids.len(), targets.len());
    assert_eq!(activation_of(&sys, 1), before + targets.len() as u32);
}

#[test]
fn feedback_targets_lists_query_occurrences_word_by_word() {
    let mut sys = make_feedback_system();
    let n0 = sys.episodes[0].neighborhoods[0].id;
    let (all, targets) = feedback_targets(&mut sys, "quantum quantum physics", &vec![n0]);
    // "quantum": two subconscious, one conscious; "physics": one subconscious.
    assert_eq!(all.len(), 4);
    let in_n0: Vec<(usize, usize)> = targets.iter().map(|r| (r.neighborhood_idx, r.occurrence_idx)).collect();
    assert_eq!(in_n0, vec![(0, 0), (0, 1)]);
}
