use attention_matters::neighborhood::NeighborhoodType;
use attention_matters::salient::{detect_neighborhood_type, extract_salient, mark_salient_typed};
use attention_matters::system::DAESystem;

#[test]
fn decision_and_preference_prefixes_are_detected() {
    let (t, text) = detect_neighborhood_type("  DECISION:  use sqlite  ");
    assert!(t == NeighborhoodType::Decision);
    assert_eq!(text, "use sqlite");
    let (t, text) = detect_neighborhood_type("PREFERENCE: tabs over spaces");
    assert!(t == NeighborhoodType::Preference);
    assert_eq!(text, "tabs over spaces");
    let (t, text) = detect_neighborhood_type(" plain insight ");
    assert!(t == NeighborhoodType::Insight);
    assert_eq!(text, "plain insight");
}

#[test]
fn prefix_is_case_sensitive() {
    let (t, text) = detect_neighborhood_type("decision: lower case");
    assert!(t == NeighborhoodType::Insight);
    assert_eq!(text, "decision: lower case");
}

#[test]
fn extract_salient_adds_one_conscious_neighborhood_per_span() {
    let mut sys = DAESystem::new("test");
    let n = extract_salient(
        &mut sys,
        "a <salient>DECISION: ship it</salient> b <salient>caching matters</salient> <salient>open",
    );
    assert_eq!(n, 2);
    let ns = &sys.conscious_episode.neighborhoods;
    assert_eq!(ns.len(), 2);
    assert!(ns[0].neighborhood_type == NeighborhoodType::Decision);
    assert_eq!(ns[0].source_text, "ship it");
    assert!(ns[1].neighborhood_type == NeighborhoodType::Insight);
    assert_eq!(ns[1].source_text, "caching matters");
    // Salient content is pre-activated.
    assert!(ns.iter().all(|n| n.occurrences.iter().all(|o| o.activation_count == 1)));
}

#[test]
fn mark_salient_typed_returns_the_new_neighborhood() {
    let mut sys = DAESystem::new("test");
    let id = mark_salient_typed(&mut sys, "PREFERENCE: short answers");
    let n = &sys.conscious_episode.neighborhoods[0];
    assert_eq!(n.id, id);
    assert!(n.neighborhood_type == NeighborhoodType::Preference);
    let words: Vec<&str> = n.occurrences.iter().map(|o| o.word.as_str()).collect();
    assert_eq!(words, vec!["short", "answers"]);
}
