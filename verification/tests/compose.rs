use attention_matters::compose::{
    compose_context, compose_context_budgeted, estimate_llm_tokens, format_entry,
    get_episode_name, get_neighborhood_text, join_strings, retrieve_by_ids,
    select_within_budget, text_of_neighborhood, BudgetConfig, Candidate, RecallCategory,
};
use attention_matters::episode::Episode;
use attention_matters::neighborhood::{Neighborhood, NeighborhoodType};
use attention_matters::system::DAESystem;

fn to_tokens(words: &[&str]) -> Vec<String> {
    words.iter().map(|s| s.to_string()).collect()
}

fn system() -> DAESystem {
    let mut sys = DAESystem::new("test");
    let mut ep = Episode::new("Notes");
    ep.add_neighborhood(Neighborhood::from_tokens(&to_tokens(&["alpha", "beta"]), "Alpha beta."));
    ep.add_neighborhood(Neighborhood::from_tokens(&to_tokens(&["gamma", "delta"]), ""));
    sys.add_episode(ep);
    sys.add_to_conscious("Remember the gamma ray");
    sys
}

fn cand(id: u128, episode_idx: usize, category: RecallCategory, tokens: usize, text: &str, meets: bool) -> Candidate {
    Candidate {
        neighborhood_id: id,
        episode_idx,
        category,
        tokens,
        text: text.to_string(),
        neighborhood_type: NeighborhoodType::Memory,
        meets_threshold: meets,
    }
}

#[test]
fn llm_token_estimate_rounds_bytes_up_to_quarters() {
    assert_eq!(estimate_llm_tokens(""), 0);
    assert_eq!(estimate_llm_tokens("abcd"), 1);
    assert_eq!(estimate_llm_tokens("abcde"), 2);
    // "é" is two bytes of UTF-8.
    assert_eq!(estimate_llm_tokens("éé"), 1);
}

#[test]
fn entries_are_formatted_by_category() {
    assert_eq!(
        format_entry(RecallCategory::Conscious, 0, "ignored", "text", NeighborhoodType::Memory),
        vec!["CONSCIOUS RECALL:", "[Source: Previously marked salient]", "\"text\""]
    );
    assert_eq!(
        format_entry(RecallCategory::Subconscious, 2, "Notes", "t", NeighborhoodType::Decision),
        vec!["SUBCONSCIOUS RECALL 2:", "[Source: Notes]", "\"[DECIDED] t\""]
    );
    assert_eq!(
        format_entry(RecallCategory::Novel, 1, "Notes", "p", NeighborhoodType::Preference),
        vec!["NOVEL CONNECTION:", "[Source: Notes]", "\"[PREFERENCE] p\""]
    );
}

#[test]
fn episode_names_for_citation() {
    let sys = system();
    assert_eq!(get_episode_name(&sys, usize::MAX), "Previously marked salient");
    assert_eq!(get_episode_name(&sys, 0), "Notes");
}

#[test]
fn budget_takes_minimums_then_threshold_candidates() {
    let budget = BudgetConfig { max_tokens: 100, min_conscious: 1, min_subconscious: 1, min_novel: 0 };
    let cands = vec![
        cand(1, 0, RecallCategory::Subconscious, 10, "a", true),
        cand(2, usize::MAX, RecallCategory::Conscious, 10, "b", false),
        cand(3, 0, RecallCategory::Subconscious, 10, "c", false),
        cand(1, 0, RecallCategory::Novel, 5, "dup", true),
        cand(4, 0, RecallCategory::Novel, 50, "too big", true),
    ];
    let (included, used) = select_within_budget(&cands, &budget);
    // Conscious minimum (2), subconscious minimum (1), then threshold
    // candidates: id 1 again is skipped, 4 no longer fits (60 + 70 > 100).
    assert_eq!(included, vec![1, 0]);
    assert_eq!(used, 60);
}

#[test]
fn budgeted_context_lays_out_categories() {
    let sys = system();
    let budget = BudgetConfig::default();
    let cands = vec![
        Candidate::new(7, 0, RecallCategory::Subconscious, "Alpha beta.".to_string(), NeighborhoodType::Memory, true),
        Candidate::new(
            8,
            usize::MAX,
            RecallCategory::Conscious,
            "Remember the gamma ray".to_string(),
            NeighborhoodType::Memory,
            true,
        ),
    ];
    assert_eq!((cands[0].tokens, cands[1].tokens), (2, 4));
    let r = compose_context_budgeted(&sys, &cands, &budget);
    assert_eq!(r.included, vec![1, 0]);
    // Each entry costs its text's tokens plus 20 for its header lines.
    assert_eq!(r.tokens_used, 46);
    assert_eq!(r.tokens_budget, 4096);
    assert_eq!(
        r.context,
        "CONSCIOUS RECALL:\n[Source: Previously marked salient]\n\"Remember the gamma ray\"\n\n\
SUBCONSCIOUS RECALL 1:\n[Source: Notes]\n\"Alpha beta.\""
    );
    assert_eq!(r.metrics.conscious, 1);
    assert_eq!(r.metrics.subconscious, 1);
    assert_eq!(r.metrics.novel, 0);
    assert_eq!(r.excluded_count, 0);
}

#[test]
fn empty_budget_composes_nothing() {
    let sys = system();
    let budget = BudgetConfig { max_tokens: 10, min_conscious: 1, min_subconscious: 1, min_novel: 1 };
    let cands = vec![Candidate::new(7, 0, RecallCategory::Subconscious, "x".to_string(), NeighborhoodType::Memory, true)];
    let r = compose_context_budgeted(&sys, &cands, &budget);
    assert!(r.included.is_empty());
    assert_eq!(r.tokens_used, 0);
    assert_eq!(r.context, "");
    assert_eq!(r.excluded_count, 1);
}

#[test]
fn fixed_context_picks_per_category() {
    let sys = system();
    let cands = vec![
        cand(7, 0, RecallCategory::Subconscious, 2, "Alpha beta.", true),
        cand(8, usize::MAX, RecallCategory::Conscious, 3, "Remember", true),
    ];
    let r = compose_context(&sys, &cands);
    assert_eq!(r.metrics.conscious, 1);
    assert_eq!(r.metrics.subconscious, 1);
    assert_eq!(r.recalled_ids.conscious, vec![8]);
    assert_eq!(r.recalled_ids.subconscious, vec![7]);
    assert!(r.recalled_ids.novel.is_empty());
    assert!(r.context.contains("CONSCIOUS RECALL:"));
    assert!(r.context.contains("SUBCONSCIOUS RECALL 1:"));
}

#[test]
fn fixed_context_counts_each_neighborhood_once() {
    let sys = system();
    let cands = vec![
        cand(8, usize::MAX, RecallCategory::Conscious, 3, "Remember", true),
        cand(7, 0, RecallCategory::Subconscious, 2, "Alpha beta.", true),
        cand(7, 0, RecallCategory::Subconscious, 2, "Alpha beta.", true),
        cand(8, 0, RecallCategory::Subconscious, 2, "Again", true),
        cand(9, 0, RecallCategory::Subconscious, 2, "gamma delta", true),
        cand(9, 0, RecallCategory::Novel, 2, "gamma delta", true),
        cand(10, 0, RecallCategory::Novel, 2, "fresh", true),
    ];
    let r = compose_context(&sys, &cands);
    assert_eq!(r.recalled_ids.conscious, vec![8]);
    assert_eq!(r.recalled_ids.subconscious, vec![7, 9]);
    assert_eq!(r.recalled_ids.novel, vec![10]);
    assert_eq!(r.included_ids, vec![8, 7, 9, 10]);
    assert_eq!(
        r.included_ids.len(),
        r.recalled_ids.conscious.len() + r.recalled_ids.subconscious.len() + r.recalled_ids.novel.len()
    );
    assert_eq!(r.metrics.subconscious, 2);
}

#[test]
fn neighborhood_text_falls_back_to_words() {
    let sys = system();
    assert_eq!(text_of_neighborhood(&sys.episodes[0].neighborhoods[0]), "Alpha beta.");
    assert_eq!(text_of_neighborhood(&sys.episodes[0].neighborhoods[1]), "gamma delta");
}

#[test]
fn neighborhood_text_lookup_uses_index_then_scan() {
    let sys = system();
    let id1 = sys.episodes[0].neighborhoods[1].id;
    assert_eq!(get_neighborhood_text(&sys, id1, 0, 1), "gamma delta");
    // A stale index falls back to a scan of the episode.
    assert_eq!(get_neighborhood_text(&sys, id1, 0, 0), "gamma delta");
    assert_eq!(get_neighborhood_text(&sys, id1, 0, 99), "gamma delta");
    assert_eq!(get_neighborhood_text(&sys, 424242, 0, 0), "");
    let cid = sys.conscious_episode.neighborhoods[0].id;
    assert_eq!(get_neighborhood_text(&sys, cid, usize::MAX, 0), "Remember the gamma ray");
}

#[test]
fn retrieve_fetches_known_ids_in_order() {
    let mut sys = system();
    let id0 = sys.episodes[0].neighborhoods[0].id;
    let cid = sys.conscious_episode.neighborhoods[0].id;
    let frags = retrieve_by_ids(&mut sys, &vec![cid, 999, id0]);
    assert_eq!(frags.len(), 2);
    assert_eq!(frags[0].neighborhood_id, cid);
    assert_eq!(frags[0].episode_name, "Previously marked salient");
    assert!(matches!(frags[0].category, RecallCategory::Conscious));
    assert_eq!(frags[0].text, "Remember the gamma ray");
    assert_eq!(frags[0].tokens, 4);
    assert_eq!(frags[1].episode_name, "Notes");
    assert!(matches!(frags[1].category, RecallCategory::Subconscious));
    assert_eq!(frags[1].text, "Alpha beta.");
    assert_eq!(frags[1].tokens, 2);
}

#[test]
fn join_strings_separates_parts() {
    let parts = vec!["a".to_string(), "b".to_string(), "c".to_string()];
    assert_eq!(join_strings(&parts, ", "), "a, b, c");
    assert_eq!(join_strings(&Vec::new(), ", "), "");
}
