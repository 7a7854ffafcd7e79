use attention_matters::episode::Episode;
use attention_matters::neighborhood::Neighborhood;
use attention_matters::query::QueryEngine;
use attention_matters::ranking::{group_by_neighborhood, is_novel_eligible};
use attention_matters::system::DAESystem;

fn nbhd(words: &[&str]) -> Neighborhood {
    let tokens: Vec<String> = words.iter().map(|s| s.to_string()).collect();
    Neighborhood::from_tokens(&tokens, &words.join(" "))
}

fn two_neighborhood_system() -> DAESystem {
    let mut sys = DAESystem::new("test");
    let mut ep = Episode::new("memories");
    ep.add_neighborhood(nbhd(&["apple", "banana", "cherry"]));
    ep.add_neighborhood(nbhd(&["apple", "grape"]));
    sys.add_episode(ep);
    sys
}

#[test]
fn activated_locations_group_by_neighborhood() {
    let mut sys = two_neighborhood_system();
    let (activation, _) = QueryEngine::activate(&mut sys, "apple banana grape");
    let refs = activation.subconscious.clone();
    assert_eq!(refs.len(), 4);
    let groups = group_by_neighborhood(&sys, &refs);
    assert_eq!(groups.len(), 2);
    let first_id = sys.get_neighborhood_for_occurrence(refs[0]).id;
    assert_eq!(groups[0].neighborhood_id, first_id);
    assert_ne!(groups[0].neighborhood_id, groups[1].neighborhood_id);
    let mut seen = 0;
    for g in &groups {
        assert!(!g.members.is_empty());
        assert!(g.members.windows(2).all(|w| w[0] < w[1]));
        for &m in &g.members {
            assert_eq!(sys.get_neighborhood_for_occurrence(refs[m]).id, g.neighborhood_id);
        }
        assert_eq!(g.episode_idx, 0);
        assert_eq!(g.neighborhood_idx, refs[g.members[0]].neighborhood_idx);
        seen += g.members.len();
    }
    assert_eq!(seen, refs.len());
    let first = &sys.episodes[0].neighborhoods[0];
    let group_of_first = groups.iter().find(|g| g.neighborhood_id == first.id).expect("first neighborhood grouped");
    assert_eq!(group_of_first.members.len(), 2);
    assert_eq!(group_of_first.neighborhood_idx, 0);
}

#[test]
fn no_locations_give_no_groups() {
    let sys = two_neighborhood_system();
    assert!(group_by_neighborhood(&sys, &Vec::new()).is_empty());
}

#[test]
fn novel_groups_are_small_and_unknown_to_the_conscious_manifold() {
    let mut sys = two_neighborhood_system();
    sys.add_to_conscious("Banana split");
    let (activation, _) = QueryEngine::activate(&mut sys, "apple banana grape");
    let refs = activation.subconscious.clone();
    let conscious = activation.conscious.clone();
    assert_eq!(conscious.len(), 1);
    let position_of = |word: &str, nb: usize| {
        refs.iter()
            .position(|r| r.neighborhood_idx == nb && sys.get_occurrence(*r).word == word)
            .expect("word activated")
    };
    let grape = position_of("grape", 1);
    let apple_second = position_of("apple", 1);
    let banana = position_of("banana", 0);
    let apple_first = position_of("apple", 0);
    assert!(is_novel_eligible(&sys, &refs, &vec![grape, apple_second], &conscious));
    assert!(is_novel_eligible(&sys, &refs, &vec![], &conscious));
    // "banana" is held by an activated conscious location.
    assert!(!is_novel_eligible(&sys, &refs, &vec![apple_first, banana], &conscious));
    // More than two activated locations is no novel connection.
    assert!(!is_novel_eligible(&sys, &refs, &vec![apple_first, grape, apple_second], &conscious));
}
