//! Context composition: choosing which recalled neighborhoods go into the
//! context, within a token budget, and laying them out as text.
//!
//! Candidates arrive ranked: the caller scores them (floating point) and
//! hands them over in decreasing score order, each marked with whether its
//! score reaches the minimum score for overflow inclusion.
use vstd::prelude::*;

use crate::neighborhood::{Neighborhood, NeighborhoodType, NeighborhoodView};
use crate::occurrence::OccurrenceView;
use crate::system::{lemma_locations_valid, NeighborhoodRef};
use crate::tokenizer::{token_count, tokens_of};
use crate::system::{DAESystem, SystemView};
use crate::sync_dispatch::{is_safe_prefix, safe_prefix};
use crate::text::{lemma_utf8_len_prefix, string_from_chars, utf8_len};
use crate::time::{decimal, decimal_chars};
use vstd::string::StringExecFns;
use vstd::string::StrSliceExecFns;

verus! {

/// Category of recalled content.
#[derive(Clone, Copy, Debug, PartialEq, Eq, Structural)]
pub enum RecallCategory {
    Conscious,
    Subconscious,
    Novel,
}

/// Number of entries of each category in a composed context.
pub struct ContextMetrics {
    pub conscious: u32,
    pub subconscious: u32,
    pub novel: u32,
}

/// Estimated LLM token cost of recalled content, by category.
pub struct TokenEstimate {
    pub conscious: usize,
    pub subconscious: usize,
    pub novel: usize,
    pub total: usize,
}

/// Configuration for budget-constrained context composition.
pub struct BudgetConfig {
    /// Maximum token budget for the composed context.
    pub max_tokens: usize,
    /// Minimum conscious recall entries to include (if available).
    pub min_conscious: usize,
    /// Minimum subconscious recall entries to include (if available).
    pub min_subconscious: usize,
    /// Minimum novel connection entries to include (if available).
    pub min_novel: usize,
}

impl Default for BudgetConfig {
    fn default() -> (b: Self)
        ensures
            b.max_tokens == 4096,
            b.min_conscious == 1,
            b.min_subconscious == 1,
            b.min_novel == 0,
    {
        BudgetConfig { max_tokens: 4096, min_conscious: 1, min_subconscious: 1, min_novel: 0 }
    }
}

/// Token cost of the header lines of one entry.
pub const ENTRY_HEADER_OVERHEAD_TOKENS: usize = 20;

/// A ranked candidate neighborhood for recall.
pub struct Candidate {
    pub neighborhood_id: u128,
    /// Episode index of the neighborhood (`usize::MAX`: conscious).
    pub episode_idx: usize,
    pub category: RecallCategory,
    /// Token count of the text.
    pub tokens: usize,
    pub text: String,
    pub neighborhood_type: NeighborhoodType,
    /// The candidate's score reaches the minimum score for inclusion beyond
    /// the category minimums.
    pub meets_threshold: bool,
}

/// Estimated LLM tokens of a text: its UTF-8 length divided by four,
/// rounded up.
pub open spec fn llm_tokens(text: Seq<char>) -> int {
    ((vstd::utf8::encode_utf8(text).len() as usize) + 3) / 4
}

/// Estimate LLM tokens from text length (bytes / 4, rounded up).
pub fn estimate_llm_tokens(text: &str) -> (r: usize)
    ensures
        r == llm_tokens(text@),
{
    let b = text.len();
    let q = b / 4;
    if b % 4 == 0 {
        q
    } else {
        q + 1
    }
}

/// Byte size up to which an index entry shows its whole text.
pub const INDEX_SUMMARY_BYTES: usize = 100;

/// The summary of an index entry: the text itself when its UTF-8 encoding
/// takes at most `INDEX_SUMMARY_BYTES` bytes, else its longest prefix that
/// fits in that many bytes without splitting a character, followed by `...`.
pub fn index_summary(text: &str) -> (r: String)
    ensures
        utf8_len(text@) <= INDEX_SUMMARY_BYTES ==> r@ == text@,
        utf8_len(text@) > INDEX_SUMMARY_BYTES ==> exists|p: Seq<char>|
            #![trigger is_safe_prefix(text@, INDEX_SUMMARY_BYTES as int, p)]
            is_safe_prefix(text@, INDEX_SUMMARY_BYTES as int, p) && r@ == p + "..."@,
{
    let p = safe_prefix(text, INDEX_SUMMARY_BYTES);
    if p.unicode_len() == text.unicode_len() {
        proof {
            assert(p@ == text@.take(text@.len() as int));
            assert(text@.take(text@.len() as int) =~= text@);
        }
        text.to_owned()
    } else {
        proof {
            lemma_utf8_len_prefix(text@, p@.len() + 1int);
        }
        let mut s = p.to_owned();
        s.append("...");
        s
    }
}

/// The name under which an episode's content is cited.
pub open spec fn episode_label(s: SystemView, episode_idx: usize) -> Seq<char> {
    if episode_idx == usize::MAX {
        "Previously marked salient"@
    } else {
        s.episodes[episode_idx as int].display_name()
    }
}

/// The name under which content of the episode at `episode_idx` is cited:
/// conscious content was previously marked salient; an unnamed episode is
/// `Memory`.
pub fn get_episode_name(system: &DAESystem, episode_idx: usize) -> (r: String)
    requires
        episode_idx == usize::MAX || episode_idx < system@.episodes.len(),
    ensures
        r@ == episode_label(system@, episode_idx),
{
    if episode_idx == usize::MAX {
        "Previously marked salient".to_owned()
    } else {
        assert(system@.episodes[episode_idx as int] == system.episodes@[episode_idx as int]@);
        system.episodes[episode_idx].display_name().to_owned()
    }
}

/// The text of an entry, marked when it is a decision or a preference.
pub open spec fn decorated(t: NeighborhoodType, text: Seq<char>) -> Seq<char> {
    match t {
        NeighborhoodType::Decision => "[DECIDED] "@ + text,
        NeighborhoodType::Preference => "[PREFERENCE] "@ + text,
        _ => text,
    }
}

/// The lines of one entry of the composed context.
pub open spec fn entry_lines(
    category: RecallCategory,
    index: usize,
    ep_name: Seq<char>,
    text: Seq<char>,
    t: NeighborhoodType,
) -> Seq<Seq<char>> {
    let header = match category {
        RecallCategory::Conscious => seq![
            "CONSCIOUS RECALL:"@,
            "[Source: Previously marked salient]"@,
        ],
        RecallCategory::Subconscious => seq![
            "SUBCONSCIOUS RECALL "@ + decimal(index as nat) + ":"@,
            "[Source: "@ + ep_name + "]"@,
        ],
        RecallCategory::Novel => seq!["NOVEL CONNECTION:"@, "[Source: "@ + ep_name + "]"@],
    };
    header.push("\""@ + decorated(t, text) + "\""@)
}

/// Format a single entry of the composed context.
pub fn format_entry(
    category: RecallCategory,
    index: usize,
    ep_name: &str,
    text: &str,
    nbhd_type: NeighborhoodType,
) -> (lines: Vec<String>)
    ensures
        crate::text::strings_view(lines@) == entry_lines(category, index, ep_name@, text@, nbhd_type),
{
    let mut lines: Vec<String> = Vec::new();
    match category {
        RecallCategory::Conscious => {
            lines.push("CONSCIOUS RECALL:".to_owned());
            lines.push("[Source: Previously marked salient]".to_owned());
        },
        RecallCategory::Subconscious => {
            let mut h = "SUBCONSCIOUS RECALL ".to_owned();
            let digits = decimal_chars(index as u64);
            let d = string_from_chars(digits.as_slice());
            h.append(d.as_str());
            h.append(":");
            lines.push(h);
            let mut s = "[Source: ".to_owned();
            s.append(ep_name);
            s.append("]");
            lines.push(s);
        },
        RecallCategory::Novel => {
            lines.push("NOVEL CONNECTION:".to_owned());
            let mut s = "[Source: ".to_owned();
            s.append(ep_name);
            s.append("]");
            lines.push(s);
        },
    }
    let mut body = "\"".to_owned();
    match nbhd_type {
        NeighborhoodType::Decision => body.append("[DECIDED] "),
        NeighborhoodType::Preference => body.append("[PREFERENCE] "),
        _ => {},
    }
    body.append(text);
    body.append("\"");
    lines.push(body);
    assert(crate::text::strings_view(lines@) =~~= entry_lines(
        category,
        index,
        ep_name@,
        text@,
        nbhd_type,
    ));
    lines
}

/// `parts` joined with `sep` between consecutive parts.
pub open spec fn join_with(parts: Seq<Seq<char>>, sep: Seq<char>) -> Seq<char>
    decreases parts.len(),
{
    if parts.len() == 0 {
        seq![]
    } else if parts.len() == 1 {
        parts[0]
    } else {
        join_with(parts.drop_last(), sep) + sep + parts.last()
    }
}

/// `parts` joined with `sep` between consecutive parts.
pub fn join_strings(parts: &Vec<String>, sep: &str) -> (r: String)
    ensures
        r@ == join_with(crate::text::strings_view(parts@), sep@),
{
    let ghost pv = crate::text::strings_view(parts@);
    if parts.len() == 0 {
        return String::new();
    }
    let mut r = parts[0].clone();
    assert(pv.take(1) =~= seq![pv[0]]);
    let mut i: usize = 1;
    while i < parts.len()
        invariant
            1 <= i <= parts@.len(),
            pv == crate::text::strings_view(parts@),
            r@ == join_with(pv.take(i as int), sep@),
        decreases parts.len() - i,
    {
        r.append(sep);
        r.append(parts[i].as_str());
        assert(pv.take(i + 1).drop_last() =~= pv.take(i as int));
        assert(pv.take(i + 1).last() == parts@[i as int]@);
        i = i + 1;
    }
    assert(pv.take(pv.len() as int) == pv);
    r
}

/// Join lines with newlines.
pub fn join_lines(parts: &Vec<String>) -> (r: String)
    ensures
        r@ == join_with(crate::text::strings_view(parts@), "\n"@),
{
    join_strings(parts, "\n")
}

/// Abstract value of a candidate.
pub struct CandidateView {
    pub neighborhood_id: u128,
    pub episode_idx: usize,
    pub category: RecallCategory,
    pub tokens: usize,
    pub text: Seq<char>,
    pub neighborhood_type: NeighborhoodType,
    pub meets_threshold: bool,
}

impl View for Candidate {
    type V = CandidateView;

    open spec fn view(&self) -> CandidateView {
        CandidateView {
            neighborhood_id: self.neighborhood_id,
            episode_idx: self.episode_idx,
            category: self.category,
            tokens: self.tokens,
            text: self.text@,
            neighborhood_type: self.neighborhood_type,
            meets_threshold: self.meets_threshold,
        }
    }
}

/// The candidate's token count is that of its text.
pub open spec fn priced(c: CandidateView) -> bool {
    c.tokens == tokens_of(c.text).len()
}

impl Candidate {
    /// A candidate for the given neighborhood, its token count taken from
    /// its text.
    pub fn new(
        neighborhood_id: u128,
        episode_idx: usize,
        category: RecallCategory,
        text: String,
        neighborhood_type: NeighborhoodType,
        meets_threshold: bool,
    ) -> (c: Candidate)
        ensures
            c@ == (CandidateView {
                neighborhood_id,
                episode_idx,
                category,
                tokens: tokens_of(text@).len() as usize,
                text: text@,
                neighborhood_type,
                meets_threshold,
            }),
            priced(c@),
    {
        let tokens = token_count(text.as_str());
        Candidate { neighborhood_id, episode_idx, category, tokens, text, neighborhood_type, meets_threshold }
    }
}

/// The views of a sequence of candidates.
pub open spec fn cand_views(v: Seq<Candidate>) -> Seq<CandidateView> {
    v.map_values(|c: Candidate| c@)
}

/// Token cost of including a candidate: its tokens plus the header.
pub open spec fn entry_cost(c: CandidateView) -> int {
    c.tokens + ENTRY_HEADER_OVERHEAD_TOKENS
}

/// Whether some candidate at the positions `inc` has the id `id`.
pub open spec fn id_included(cands: Seq<CandidateView>, inc: Seq<int>, id: u128) -> bool {
    exists|k: int| 0 <= k < inc.len() && cands[inc[k]].neighborhood_id == id
}

/// A selection: the positions of the included candidates, in order of
/// inclusion, and the tokens they use.
pub type Selection = (Seq<int>, int);

/// Try to include candidate `i`: not when its neighborhood is already
/// included, nor when its cost would exceed `max`.
pub open spec fn try_add(cands: Seq<CandidateView>, st: Selection, i: int, max: int) -> Selection {
    if id_included(cands, st.0, cands[i].neighborhood_id) || st.1 + entry_cost(cands[i]) > max {
        st
    } else {
        (st.0.push(i), st.1 + entry_cost(cands[i]))
    }
}

/// Fill the minimum `m` of category `cat` from the first `n` candidates, in
/// order, over the selection `st`; also returns how many were added.
pub open spec fn fill_minimum(
    cands: Seq<CandidateView>,
    cat: RecallCategory,
    m: int,
    max: int,
    st: Selection,
    n: int,
) -> (Selection, int)
    decreases n,
{
    if n <= 0 {
        (st, 0)
    } else {
        let prev = fill_minimum(cands, cat, m, max, st, n - 1);
        if cands[n - 1].category == cat && prev.1 < m {
            let next = try_add(cands, prev.0, n - 1, max);
            (next, if next.0.len() > prev.0.0.len() {
                prev.1 + 1
            } else {
                prev.1
            })
        } else {
            prev
        }
    }
}

/// Fill the rest of the budget from the first `n` candidates, in order,
/// with those that meet the score threshold.
pub open spec fn fill_overflow(cands: Seq<CandidateView>, max: int, st: Selection, n: int) -> Selection
    decreases n,
{
    if n <= 0 {
        st
    } else {
        let prev = fill_overflow(cands, max, st, n - 1);
        if cands[n - 1].meets_threshold {
            try_add(cands, prev, n - 1, max)
        } else {
            prev
        }
    }
}

/// The budgeted selection: the category minimums (conscious, subconscious,
/// novel) by rank, then the rest of the budget by rank among candidates that
/// meet the threshold.
pub open spec fn budget_selection(cands: Seq<CandidateView>, b: BudgetConfig) -> Selection {
    let n = cands.len() as int;
    let max = b.max_tokens as int;
    let p1 = fill_minimum(cands, RecallCategory::Conscious, b.min_conscious as int, max, (seq![], 0), n).0;
    let p2 = fill_minimum(cands, RecallCategory::Subconscious, b.min_subconscious as int, max, p1, n).0;
    let p3 = fill_minimum(cands, RecallCategory::Novel, b.min_novel as int, max, p2, n).0;
    fill_overflow(cands, max, p3, n)
}

/// A selection is sound: positions in range, no neighborhood twice, and the
/// tokens used are the costs of the included candidates, within `max`.
pub open spec fn sound_selection(cands: Seq<CandidateView>, st: Selection, max: int) -> bool {
    &&& forall|k: int| 0 <= k < st.0.len() ==> 0 <= #[trigger] st.0[k] < cands.len()
    &&& forall|k: int, l: int|
        0 <= k < l < st.0.len() ==> cands[st.0[k]].neighborhood_id != cands[st.0[l]].neighborhood_id
    &&& st.1 == costs_of(cands, st.0)
    &&& 0 <= st.1 <= max
}

/// Sum of the costs of the candidates at `inc`.
pub open spec fn costs_of(cands: Seq<CandidateView>, inc: Seq<int>) -> int
    decreases inc.len(),
{
    if inc.len() == 0 {
        0
    } else {
        costs_of(cands, inc.drop_last()) + entry_cost(cands[inc.last()])
    }
}

proof fn lemma_try_add_sound(cands: Seq<CandidateView>, st: Selection, i: int, max: int)
    requires
        sound_selection(cands, st, max),
        0 <= i < cands.len(),
    ensures
        sound_selection(cands, try_add(cands, st, i, max), max),
{
    let next = try_add(cands, st, i, max);
    if next != st {
        assert(next.0.drop_last() == st.0);
        assert forall|k: int, l: int| 0 <= k < l < next.0.len() implies cands[next.0[k]].neighborhood_id
            != cands[next.0[l]].neighborhood_id by {
            if l == next.0.len() - 1 {
                assert(next.0[k] == st.0[k]);
                if cands[st.0[k]].neighborhood_id == cands[i].neighborhood_id {
                    assert(id_included(cands, st.0, cands[i].neighborhood_id));
                }
            } else {
                assert(next.0[k] == st.0[k] && next.0[l] == st.0[l]);
            }
        }
    }
}

proof fn lemma_fill_minimum_sound(
    cands: Seq<CandidateView>,
    cat: RecallCategory,
    m: int,
    max: int,
    st: Selection,
    n: int,
)
    requires
        sound_selection(cands, st, max),
        n <= cands.len(),
    ensures
        sound_selection(cands, fill_minimum(cands, cat, m, max, st, n).0, max),
    decreases n,
{
    if n > 0 {
        lemma_fill_minimum_sound(cands, cat, m, max, st, n - 1);
        let prev = fill_minimum(cands, cat, m, max, st, n - 1);
        lemma_try_add_sound(cands, prev.0, n - 1, max);
    }
}

proof fn lemma_fill_overflow_sound(cands: Seq<CandidateView>, max: int, st: Selection, n: int)
    requires
        sound_selection(cands, st, max),
        n <= cands.len(),
    ensures
        sound_selection(cands, fill_overflow(cands, max, st, n), max),
    decreases n,
{
    if n > 0 {
        lemma_fill_overflow_sound(cands, max, st, n - 1);
        lemma_try_add_sound(cands, fill_overflow(cands, max, st, n - 1), n - 1, max);
    }
}

/// The budgeted selection never includes a neighborhood twice, and the
/// tokens it uses are the costs of what it includes, within the budget.
pub proof fn lemma_budget_selection_sound(cands: Seq<CandidateView>, b: BudgetConfig)
    ensures
        sound_selection(cands, budget_selection(cands, b), b.max_tokens as int),
{
    let n = cands.len() as int;
    let max = b.max_tokens as int;
    let st0: Selection = (seq![], 0);
    assert(costs_of(cands, st0.0) == 0);
    lemma_fill_minimum_sound(cands, RecallCategory::Conscious, b.min_conscious as int, max, st0, n);
    let p1 = fill_minimum(cands, RecallCategory::Conscious, b.min_conscious as int, max, st0, n).0;
    lemma_fill_minimum_sound(cands, RecallCategory::Subconscious, b.min_subconscious as int, max, p1, n);
    let p2 = fill_minimum(cands, RecallCategory::Subconscious, b.min_subconscious as int, max, p1, n).0;
    lemma_fill_minimum_sound(cands, RecallCategory::Novel, b.min_novel as int, max, p2, n);
    let p3 = fill_minimum(cands, RecallCategory::Novel, b.min_novel as int, max, p2, n).0;
    lemma_fill_overflow_sound(cands, max, p3, n);
}

/// `b` extends `a`: it keeps `a`'s positions as a prefix and uses at least
/// as many tokens.
spec fn extends(a: Selection, b: Selection) -> bool {
    &&& a.0.len() <= b.0.len()
    &&& forall|k: int| 0 <= k < a.0.len() ==> #[trigger] b.0[k] == a.0[k]
    &&& a.1 <= b.1
}

proof fn lemma_try_add_extends(cands: Seq<CandidateView>, st: Selection, i: int, max: int)
    ensures
        extends(st, try_add(cands, st, i, max)),
        id_included(cands, try_add(cands, st, i, max).0, cands[i].neighborhood_id) || st.1 + entry_cost(
            cands[i],
        ) > max,
{
    let next = try_add(cands, st, i, max);
    if !id_included(cands, st.0, cands[i].neighborhood_id) && st.1 + entry_cost(cands[i]) <= max {
        assert(next.0[st.0.len() as int] == i);
    }
}

proof fn lemma_extends_trans(a: Selection, b: Selection, c: Selection)
    requires
        extends(a, b),
        extends(b, c),
    ensures
        extends(a, c),
{
    assert forall|k: int| 0 <= k < a.0.len() implies #[trigger] c.0[k] == a.0[k] by {
        assert(c.0[k] == b.0[k]);
    }
}

proof fn lemma_extends_keeps_ids(cands: Seq<CandidateView>, a: Selection, b: Selection, id: u128)
    requires
        extends(a, b),
        id_included(cands, a.0, id),
    ensures
        id_included(cands, b.0, id),
{
    let k = choose|k: int| 0 <= k < a.0.len() && cands[a.0[k]].neighborhood_id == id;
    assert(b.0[k] == a.0[k]);
}

/// Filling over more candidates only extends the selection.
proof fn lemma_fill_overflow_extends(cands: Seq<CandidateView>, max: int, st: Selection, m: int, n: int)
    requires
        0 <= m <= n,
    ensures
        extends(fill_overflow(cands, max, st, m), fill_overflow(cands, max, st, n)),
    decreases n - m,
{
    if m < n {
        lemma_fill_overflow_extends(cands, max, st, m, n - 1);
        let prev = fill_overflow(cands, max, st, n - 1);
        lemma_try_add_extends(cands, prev, n - 1, max);
        lemma_extends_trans(fill_overflow(cands, max, st, m), prev, fill_overflow(cands, max, st, n));
    } else {
        let a = fill_overflow(cands, max, st, m);
        assert(extends(a, a));
    }
}

/// Nothing that could still be afforded is left out: after the category
/// minimums, every candidate that meets the score threshold, whatever its
/// category, is either included or shares its neighborhood with an
/// included one, or its cost no longer fits in what the selection leaves of
/// the budget.
pub proof fn lemma_budget_selection_fills(cands: Seq<CandidateView>, b: BudgetConfig)
    ensures
        forall|k: int|
            0 <= k < cands.len() && (#[trigger] cands[k]).meets_threshold ==> id_included(
                cands,
                budget_selection(cands, b).0,
                cands[k].neighborhood_id,
            ) || budget_selection(cands, b).1 + entry_cost(cands[k]) > b.max_tokens,
{
    let n = cands.len() as int;
    let max = b.max_tokens as int;
    let p1 = fill_minimum(cands, RecallCategory::Conscious, b.min_conscious as int, max, (seq![], 0), n).0;
    let p2 = fill_minimum(cands, RecallCategory::Subconscious, b.min_subconscious as int, max, p1, n).0;
    let p3 = fill_minimum(cands, RecallCategory::Novel, b.min_novel as int, max, p2, n).0;
    let fin = fill_overflow(cands, max, p3, n);
    assert(fin == budget_selection(cands, b));
    assert forall|k: int| 0 <= k < cands.len() && (#[trigger] cands[k]).meets_threshold implies id_included(
        cands,
        fin.0,
        cands[k].neighborhood_id,
    ) || fin.1 + entry_cost(cands[k]) > max by {
        let before = fill_overflow(cands, max, p3, k);
        let after = fill_overflow(cands, max, p3, k + 1);
        assert(after == try_add(cands, before, k, max));
        lemma_try_add_extends(cands, before, k, max);
        lemma_fill_overflow_extends(cands, max, p3, k + 1, n);
        if id_included(cands, after.0, cands[k].neighborhood_id) {
            lemma_extends_keeps_ids(cands, after, fin, cands[k].neighborhood_id);
        } else {
            lemma_fill_overflow_extends(cands, max, p3, k, k + 1);
            lemma_extends_trans(before, after, fin);
        }
    }
}

/// The minimum a budget sets for a category.
pub open spec fn category_minimum(b: BudgetConfig, cat: RecallCategory) -> int {
    match cat {
        RecallCategory::Conscious => b.min_conscious as int,
        RecallCategory::Subconscious => b.min_subconscious as int,
        RecallCategory::Novel => b.min_novel as int,
    }
}

proof fn lemma_category_count_nonneg(cands: Seq<CandidateView>, inc: Seq<int>, cat: RecallCategory)
    ensures
        category_count(cands, inc, cat) >= 0,
    decreases inc.len(),
{
    if inc.len() > 0 {
        lemma_category_count_nonneg(cands, inc.drop_last(), cat);
    }
}

/// Extending a selection never lowers a category's count.
proof fn lemma_category_count_extends(cands: Seq<CandidateView>, x: Seq<int>, y: Seq<int>, cat: RecallCategory)
    requires
        x.len() <= y.len(),
        forall|k: int| 0 <= k < x.len() ==> #[trigger] y[k] == x[k],
    ensures
        category_count(cands, y, cat) >= category_count(cands, x, cat),
    decreases y.len(),
{
    if y.len() == x.len() {
        assert(y =~= x);
    } else {
        assert forall|k: int| 0 <= k < x.len() implies #[trigger] y.drop_last()[k] == x[k] by {
            assert(y.drop_last()[k] == y[k]);
        }
        lemma_category_count_extends(cands, x, y.drop_last(), cat);
    }
}

/// What the minimum phase of `cat` counts is what it adds to the category,
/// and it only extends the selection.
proof fn lemma_fill_minimum_counts(
    cands: Seq<CandidateView>,
    cat: RecallCategory,
    m: int,
    max: int,
    st: Selection,
    n: int,
)
    ensures
        extends(st, fill_minimum(cands, cat, m, max, st, n).0),
        fill_minimum(cands, cat, m, max, st, n).1 == category_count(cands, fill_minimum(cands, cat, m, max, st, n).0.0, cat)
            - category_count(cands, st.0, cat),
    decreases n,
{
    if n <= 0 {
        assert(extends(st, st));
    } else {
        lemma_fill_minimum_counts(cands, cat, m, max, st, n - 1);
        let prev = fill_minimum(cands, cat, m, max, st, n - 1);
        if cands[n - 1].category == cat && prev.1 < m {
            let next = try_add(cands, prev.0, n - 1, max);
            lemma_try_add_extends(cands, prev.0, n - 1, max);
            lemma_extends_trans(st, prev.0, next);
            if next.0.len() > prev.0.0.len() {
                assert(next.0.drop_last() =~= prev.0.0);
            } else {
                assert(next == prev.0);
            }
        }
    }
}

/// While the minimum phase of `cat` has added fewer than `m`, every
/// candidate of `cat` it has passed is in, shares its neighborhood with one
/// that is, or did not fit.
proof fn lemma_fill_minimum_tries(
    cands: Seq<CandidateView>,
    cat: RecallCategory,
    m: int,
    max: int,
    st: Selection,
    n: int,
)
    requires
        n <= cands.len(),
        fill_minimum(cands, cat, m, max, st, n).1 < m,
    ensures
        forall|k: int|
            0 <= k < n && (#[trigger] cands[k]).category == cat ==> id_included(
                cands,
                fill_minimum(cands, cat, m, max, st, n).0.0,
                cands[k].neighborhood_id,
            ) || fill_minimum(cands, cat, m, max, st, n).0.1 + entry_cost(cands[k]) > max,
    decreases n,
{
    if n > 0 {
        let prev = fill_minimum(cands, cat, m, max, st, n - 1);
        let fin = fill_minimum(cands, cat, m, max, st, n);
        assert(prev.1 <= fin.1);
        lemma_fill_minimum_tries(cands, cat, m, max, st, n - 1);
        if cands[n - 1].category == cat && prev.1 < m {
            lemma_try_add_extends(cands, prev.0, n - 1, max);
        } else {
            assert(fin == prev);
            assert(extends(prev.0, fin.0));
        }
        assert forall|k: int| 0 <= k < n && (#[trigger] cands[k]).category == cat implies id_included(
            cands,
            fin.0.0,
            cands[k].neighborhood_id,
        ) || fin.0.1 + entry_cost(cands[k]) > max by {
            if k < n - 1 {
                if id_included(cands, prev.0.0, cands[k].neighborhood_id) {
                    lemma_extends_keeps_ids(cands, prev.0, fin.0, cands[k].neighborhood_id);
                }
            }
        }
    }
}

/// A category left below its minimum had nothing more to give: when fewer
/// candidates of a category are included than the budget's minimum for it,
/// every candidate of that category is included, shares its neighborhood
/// with an included one, or costs more than the selection leaves of the
/// budget.
pub proof fn lemma_budget_minimums_filled(cands: Seq<CandidateView>, b: BudgetConfig)
    ensures
        forall|k: int|
            0 <= k < cands.len() && category_count(cands, budget_selection(cands, b).0, (#[trigger] cands[k]).category)
                < category_minimum(b, cands[k].category) ==> id_included(
                cands,
                budget_selection(cands, b).0,
                cands[k].neighborhood_id,
            ) || budget_selection(cands, b).1 + entry_cost(cands[k]) > b.max_tokens,
{
    let n = cands.len() as int;
    let max = b.max_tokens as int;
    let st0: Selection = (seq![], 0);
    let f1 = fill_minimum(cands, RecallCategory::Conscious, b.min_conscious as int, max, st0, n);
    let f2 = fill_minimum(cands, RecallCategory::Subconscious, b.min_subconscious as int, max, f1.0, n);
    let f3 = fill_minimum(cands, RecallCategory::Novel, b.min_novel as int, max, f2.0, n);
    let fin = fill_overflow(cands, max, f3.0, n);
    assert(fin == budget_selection(cands, b));
    lemma_fill_minimum_counts(cands, RecallCategory::Conscious, b.min_conscious as int, max, st0, n);
    lemma_fill_minimum_counts(cands, RecallCategory::Subconscious, b.min_subconscious as int, max, f1.0, n);
    lemma_fill_minimum_counts(cands, RecallCategory::Novel, b.min_novel as int, max, f2.0, n);
    lemma_fill_overflow_extends(cands, max, f3.0, 0, n);
    assert(fill_overflow(cands, max, f3.0, 0) == f3.0);
    lemma_extends_trans(f2.0, f3.0, fin);
    lemma_extends_trans(f1.0, f2.0, fin);
    assert forall|k: int|
        0 <= k < cands.len() && category_count(cands, fin.0, (#[trigger] cands[k]).category) < category_minimum(
            b,
            cands[k].category,
        ) implies id_included(cands, fin.0, cands[k].neighborhood_id) || fin.1 + entry_cost(cands[k]) > max by {
        let cat = cands[k].category;
        let (phase, start) = match cat {
            RecallCategory::Conscious => (f1, st0),
            RecallCategory::Subconscious => (f2, f1.0),
            RecallCategory::Novel => (f3, f2.0),
        };
        let m = category_minimum(b, cat);
        assert(phase == fill_minimum(cands, cat, m, max, start, n));
        assert(extends(phase.0, fin));
        lemma_category_count_nonneg(cands, start.0, cat);
        lemma_category_count_extends(cands, phase.0.0, fin.0, cat);
        assert(phase.1 < m);
        lemma_fill_minimum_tries(cands, cat, m, max, start, n);
        if id_included(cands, phase.0.0, cands[k].neighborhood_id) {
            lemma_extends_keeps_ids(cands, phase.0, fin, cands[k].neighborhood_id);
        }
    }
}

/// How many candidates of category `cat` at the positions `inc` miss the
/// score threshold.
pub open spec fn below_threshold_count(cands: Seq<CandidateView>, inc: Seq<int>, cat: RecallCategory) -> int
    decreases inc.len(),
{
    if inc.len() == 0 {
        0
    } else {
        below_threshold_count(cands, inc.drop_last(), cat) + if cands[inc.last()].category == cat
            && !cands[inc.last()].meets_threshold {
            1int
        } else {
            0int
        }
    }
}

/// The overflow phase takes only candidates that meet the threshold.
proof fn lemma_fill_overflow_below(cands: Seq<CandidateView>, max: int, st: Selection, n: int, cat: RecallCategory)
    ensures
        below_threshold_count(cands, fill_overflow(cands, max, st, n).0, cat) == below_threshold_count(
            cands,
            st.0,
            cat,
        ),
    decreases n,
{
    if n > 0 {
        lemma_fill_overflow_below(cands, max, st, n - 1, cat);
        let prev = fill_overflow(cands, max, st, n - 1);
        if cands[n - 1].meets_threshold {
            let next = try_add(cands, prev, n - 1, max);
            if next != prev {
                assert(next.0.drop_last() =~= prev.0);
            }
        }
    }
}

/// The minimum phase of `cat` adds at most what it counts, and only of
/// `cat`; what it counts is at most `m`.
proof fn lemma_fill_minimum_below(
    cands: Seq<CandidateView>,
    cat: RecallCategory,
    m: int,
    max: int,
    st: Selection,
    n: int,
    c: RecallCategory,
)
    requires
        0 <= m,
    ensures
        fill_minimum(cands, cat, m, max, st, n).1 <= m,
        0 <= fill_minimum(cands, cat, m, max, st, n).1,
        below_threshold_count(cands, fill_minimum(cands, cat, m, max, st, n).0.0, c) <= below_threshold_count(
            cands,
            st.0,
            c,
        ) + if c == cat {
            fill_minimum(cands, cat, m, max, st, n).1
        } else {
            0
        },
    decreases n,
{
    if n > 0 {
        lemma_fill_minimum_below(cands, cat, m, max, st, n - 1, c);
        let prev = fill_minimum(cands, cat, m, max, st, n - 1);
        if cands[n - 1].category == cat && prev.1 < m {
            let next = try_add(cands, prev.0, n - 1, max);
            if next.0.len() > prev.0.0.len() {
                assert(next.0.drop_last() =~= prev.0.0);
            } else {
                assert(next == prev.0);
            }
        }
    }
}

/// Candidates that miss the score threshold are taken only to meet the
/// category minimums: of each category, at most its minimum of them is
/// included.
pub proof fn lemma_budget_below_threshold(cands: Seq<CandidateView>, b: BudgetConfig, cat: RecallCategory)
    ensures
        below_threshold_count(cands, budget_selection(cands, b).0, cat) <= category_minimum(b, cat),
{
    let n = cands.len() as int;
    let max = b.max_tokens as int;
    let st0: Selection = (seq![], 0);
    let f1 = fill_minimum(cands, RecallCategory::Conscious, b.min_conscious as int, max, st0, n);
    let f2 = fill_minimum(cands, RecallCategory::Subconscious, b.min_subconscious as int, max, f1.0, n);
    let f3 = fill_minimum(cands, RecallCategory::Novel, b.min_novel as int, max, f2.0, n);
    let fin = fill_overflow(cands, max, f3.0, n);
    assert(fin == budget_selection(cands, b));
    lemma_fill_minimum_below(cands, RecallCategory::Conscious, b.min_conscious as int, max, st0, n, cat);
    lemma_fill_minimum_below(cands, RecallCategory::Subconscious, b.min_subconscious as int, max, f1.0, n, cat);
    lemma_fill_minimum_below(cands, RecallCategory::Novel, b.min_novel as int, max, f2.0, n, cat);
    lemma_fill_overflow_below(cands, max, f3.0, n, cat);
}

/// The positions of `inc` as integers.
pub open spec fn positions(inc: Seq<usize>) -> Seq<int> {
    inc.map_values(|x: usize| x as int)
}

/// Whether a candidate with id `id` is among the positions `inc`.
fn is_included(cands: &Vec<Candidate>, inc: &Vec<usize>, id: u128) -> (b: bool)
    requires
        forall|k: int| 0 <= k < inc@.len() ==> #[trigger] inc@[k] < cands@.len(),
    ensures
        b == id_included(cand_views(cands@), positions(inc@), id),
{
    let mut k: usize = 0;
    while k < inc.len()
        invariant
            k <= inc@.len(),
            forall|j: int| 0 <= j < inc@.len() ==> #[trigger] inc@[j] < cands@.len(),
            forall|j: int| 0 <= j < k ==> cands@[inc@[j] as int].neighborhood_id != id,
        decreases inc.len() - k,
    {
        if cands[inc[k]].neighborhood_id == id {
            assert(cand_views(cands@)[positions(inc@)[k as int]].neighborhood_id == id);
            return true;
        }
        k = k + 1;
    }
    assert forall|j: int| 0 <= j < positions(inc@).len() implies cand_views(cands@)[positions(inc@)[j]].neighborhood_id != id by {
        assert(cand_views(cands@)[positions(inc@)[j]] == cands@[inc@[j] as int]@);
    }
    false
}

/// Try to include candidate `i` in the selection `(inc, used)`; returns
/// whether it was included.
fn try_add_exec(cands: &Vec<Candidate>, inc: &mut Vec<usize>, used: &mut usize, i: usize, max: usize) -> (added: bool)
    requires
        i < cands@.len(),
        forall|k: int| 0 <= k < old(inc)@.len() ==> #[trigger] old(inc)@[k] < cands@.len(),
        forall|k: int| 0 <= k < cands@.len() ==> (#[trigger] cands@[k]).tokens + ENTRY_HEADER_OVERHEAD_TOKENS <= usize::MAX,
        *old(used) <= max,
    ensures
        (positions(final(inc)@), *final(used) as int) == try_add(
            cand_views(cands@),
            (positions(old(inc)@), *old(used) as int),
            i as int,
            max as int,
        ),
        forall|k: int| 0 <= k < final(inc)@.len() ==> #[trigger] final(inc)@[k] < cands@.len(),
        *final(used) <= max,
        added == (final(inc)@.len() > old(inc)@.len()),
{
    let c = &cands[i];
    assert(cand_views(cands@)[i as int] == c@);
    if is_included(cands, inc, c.neighborhood_id) {
        return false;
    }
    let cost = c.tokens + ENTRY_HEADER_OVERHEAD_TOKENS;
    if cost > max - *used {
        return false;
    }
    inc.push(i);
    *used = *used + cost;
    assert(positions(inc@) =~= positions(old(inc)@).push(i as int));
    true
}

/// Select, within the budget, which candidates to include (given in
/// decreasing score order): first the minimum of each category, then the
/// rest of the budget among candidates that meet the score threshold.
/// Returns the positions included, in order of inclusion, and the tokens
/// used.
pub fn select_within_budget(cands: &Vec<Candidate>, budget: &BudgetConfig) -> (r: (Vec<usize>, usize))
    requires
        forall|k: int| 0 <= k < cands@.len() ==> (#[trigger] cands@[k]).tokens + ENTRY_HEADER_OVERHEAD_TOKENS <= usize::MAX,
    ensures
        (positions(r.0@), r.1 as int) == budget_selection(cand_views(cands@), *budget),
        forall|k: int| 0 <= k < r.0@.len() ==> #[trigger] r.0@[k] < cands@.len(),
        r.1 <= budget.max_tokens,
        forall|k: int|
            0 <= k < cands@.len() && (#[trigger] cands@[k]).meets_threshold ==> id_included(
                cand_views(cands@),
                positions(r.0@),
                cands@[k].neighborhood_id,
            ) || r.1 + entry_cost(cands@[k]@) > budget.max_tokens,
{
    let ghost cv = cand_views(cands@);
    let max = budget.max_tokens;
    let mut inc: Vec<usize> = Vec::new();
    let mut used: usize = 0;
    assert(positions(inc@) =~= seq![]);
    fill_minimum_exec(cands, RecallCategory::Conscious, budget.min_conscious, max, &mut inc, &mut used);
    fill_minimum_exec(cands, RecallCategory::Subconscious, budget.min_subconscious, max, &mut inc, &mut used);
    fill_minimum_exec(cands, RecallCategory::Novel, budget.min_novel, max, &mut inc, &mut used);
    let ghost p3 = (positions(inc@), used as int);
    let mut i: usize = 0;
    while i < cands.len()
        invariant
            i <= cands@.len(),
            cv == cand_views(cands@),
            forall|k: int| 0 <= k < cands@.len() ==> (#[trigger] cands@[k]).tokens + ENTRY_HEADER_OVERHEAD_TOKENS <= usize::MAX,
            forall|k: int| 0 <= k < inc@.len() ==> #[trigger] inc@[k] < cands@.len(),
            used <= max,
            (positions(inc@), used as int) == fill_overflow(cv, max as int, p3, i as int),
        decreases cands.len() - i,
    {
        assert(cv[i as int] == cands@[i as int]@);
        if cands[i].meets_threshold {
            try_add_exec(cands, &mut inc, &mut used, i, max);
        }
        i = i + 1;
    }
    proof {
        lemma_budget_selection_fills(cv, *budget);
        assert forall|k: int| 0 <= k < cands@.len() && (#[trigger] cands@[k]).meets_threshold implies id_included(
            cv,
            positions(inc@),
            cands@[k].neighborhood_id,
        ) || used + entry_cost(cands@[k]@) > budget.max_tokens by {
            assert(cv[k] == cands@[k]@);
        }
    }
    (inc, used)
}

/// Fill the minimum `m` of category `cat`, in rank order.
fn fill_minimum_exec(
    cands: &Vec<Candidate>,
    cat: RecallCategory,
    m: usize,
    max: usize,
    inc: &mut Vec<usize>,
    used: &mut usize,
)
    requires
        forall|k: int| 0 <= k < cands@.len() ==> (#[trigger] cands@[k]).tokens + ENTRY_HEADER_OVERHEAD_TOKENS <= usize::MAX,
        forall|k: int| 0 <= k < old(inc)@.len() ==> #[trigger] old(inc)@[k] < cands@.len(),
        *old(used) <= max,
    ensures
        (positions(final(inc)@), *final(used) as int) == fill_minimum(
            cand_views(cands@),
            cat,
            m as int,
            max as int,
            (positions(old(inc)@), *old(used) as int),
            cands@.len() as int,
        ).0,
        forall|k: int| 0 <= k < final(inc)@.len() ==> #[trigger] final(inc)@[k] < cands@.len(),
        *final(used) <= max,
{
    let ghost cv = cand_views(cands@);
    let ghost st0 = (positions(inc@), *used as int);
    let mut filled: usize = 0;
    let mut i: usize = 0;
    while i < cands.len()
        invariant
            i <= cands@.len(),
            cv == cand_views(cands@),
            forall|k: int| 0 <= k < cands@.len() ==> (#[trigger] cands@[k]).tokens + ENTRY_HEADER_OVERHEAD_TOKENS <= usize::MAX,
            forall|k: int| 0 <= k < inc@.len() ==> #[trigger] inc@[k] < cands@.len(),
            *used <= max,
            filled <= i,
            ((positions(inc@), *used as int), filled as int) == fill_minimum(cv, cat, m as int, max as int, st0, i as int),
        decreases cands.len() - i,
    {
        assert(cv[i as int] == cands@[i as int]@);
        if cands[i].category == cat && filled < m {
            let added = try_add_exec(cands, inc, used, i, max);
            if added {
                filled = filled + 1;
            }
        }
        i = i + 1;
    }
}

/// `parts` followed by the lines of one more entry, a blank line between
/// entries.
pub open spec fn with_entry(parts: Seq<Seq<char>>, entry: Seq<Seq<char>>) -> Seq<Seq<char>> {
    if parts.len() == 0 {
        entry
    } else {
        parts.push(seq![]) + entry
    }
}

/// `parts` followed by the entries of the included candidates (positions
/// `inc`) of category `cat`, in order, numbered from 1; also returns how
/// many there were.
pub open spec fn add_group(
    cands: Seq<CandidateView>,
    s: SystemView,
    inc: Seq<int>,
    cat: RecallCategory,
    parts: Seq<Seq<char>>,
) -> (Seq<Seq<char>>, int)
    decreases inc.len(),
{
    if inc.len() == 0 {
        (parts, 0)
    } else {
        let prev = add_group(cands, s, inc.drop_last(), cat, parts);
        let c = cands[inc.last()];
        if c.category == cat {
            (
                with_entry(
                    prev.0,
                    entry_lines(
                        cat,
                        (prev.1 + 1) as usize,
                        episode_label(s, c.episode_idx),
                        c.text,
                        c.neighborhood_type,
                    ),
                ),
                prev.1 + 1,
            )
        } else {
            prev
        }
    }
}

/// The lines of the composed context: the included conscious entries, then
/// the subconscious ones, then the novel ones.
pub open spec fn budget_parts(cands: Seq<CandidateView>, s: SystemView, inc: Seq<int>) -> Seq<Seq<char>> {
    let p1 = add_group(cands, s, inc, RecallCategory::Conscious, seq![]).0;
    let p2 = add_group(cands, s, inc, RecallCategory::Subconscious, p1).0;
    add_group(cands, s, inc, RecallCategory::Novel, p2).0
}

/// `a + b`, saturating at `usize::MAX`.
pub open spec fn sat_add(a: int, b: int) -> int {
    if a + b > usize::MAX {
        usize::MAX as int
    } else {
        a + b
    }
}

/// Estimated LLM tokens of the included candidates of category `cat`
/// (saturating at `usize::MAX`).
pub open spec fn category_tokens(cands: Seq<CandidateView>, inc: Seq<int>, cat: RecallCategory) -> int
    decreases inc.len(),
{
    if inc.len() == 0 {
        0
    } else {
        let prev = category_tokens(cands, inc.drop_last(), cat);
        if cands[inc.last()].category == cat {
            sat_add(prev, llm_tokens(cands[inc.last()].text))
        } else {
            prev
        }
    }
}

/// Number of the included candidates of category `cat`.
pub open spec fn category_count(cands: Seq<CandidateView>, inc: Seq<int>, cat: RecallCategory) -> int
    decreases inc.len(),
{
    if inc.len() == 0 {
        0
    } else {
        category_count(cands, inc.drop_last(), cat) + if cands[inc.last()].category == cat {
            1int
        } else {
            0int
        }
    }
}

/// The neighborhood ids of the candidates.
pub open spec fn candidate_ids(cands: Seq<CandidateView>) -> Seq<u128> {
    cands.map_values(|c: CandidateView| c.neighborhood_id)
}

/// Result of budget-constrained context composition.
pub struct BudgetedContextResult {
    pub context: String,
    pub metrics: ContextMetrics,
    /// Positions, among the candidates, of the included ones, in order of
    /// inclusion.
    pub included: Vec<usize>,
    /// Distinct candidate neighborhoods left out.
    pub excluded_count: usize,
    pub tokens_used: usize,
    pub tokens_budget: usize,
    pub token_estimate: TokenEstimate,
}

/// Append the entries of the included candidates of category `cat` to
/// `parts`; returns how many there were.
fn add_group_exec(
    system: &DAESystem,
    cands: &Vec<Candidate>,
    inc: &Vec<usize>,
    cat: RecallCategory,
    parts: &mut Vec<String>,
) -> (n: usize)
    requires
        forall|k: int| 0 <= k < inc@.len() ==> #[trigger] inc@[k] < cands@.len(),
        forall|k: int|
            0 <= k < cands@.len() ==> (#[trigger] cands@[k]).episode_idx == usize::MAX
                || cands@[k].episode_idx < system@.episodes.len(),
    ensures
        (crate::text::strings_view(final(parts)@), n as int) == add_group(
            cand_views(cands@),
            system@,
            positions(inc@),
            cat,
            crate::text::strings_view(old(parts)@),
        ),
        n <= inc@.len(),
{
    let ghost cv = cand_views(cands@);
    let ghost pi = positions(inc@);
    let ghost p0 = crate::text::strings_view(parts@);
    let mut n: usize = 0;
    let mut k: usize = 0;
    assert(pi.take(0) =~= seq![]);
    while k < inc.len()
        invariant
            k <= inc@.len(),
            cv == cand_views(cands@),
            pi == positions(inc@),
            forall|j: int| 0 <= j < inc@.len() ==> #[trigger] inc@[j] < cands@.len(),
            forall|j: int|
                0 <= j < cands@.len() ==> (#[trigger] cands@[j]).episode_idx == usize::MAX
                    || cands@[j].episode_idx < system@.episodes.len(),
            n <= k,
            (crate::text::strings_view(parts@), n as int) == add_group(cv, system@, pi.take(k as int), cat, p0),
        decreases inc.len() - k,
    {
        let c = &cands[inc[k]];
        proof {
            assert(pi.take(k + 1).drop_last() =~= pi.take(k as int));
            assert(pi.take(k + 1).last() == inc@[k as int] as int);
            assert(cv[inc@[k as int] as int] == c@);
        }
        if c.category == cat {
            let ghost before = crate::text::strings_view(parts@);
            if parts.len() > 0 {
                parts.push(String::new());
            }
            let name = get_episode_name(system, c.episode_idx);
            let lines = format_entry(cat, n + 1, name.as_str(), c.text.as_str(), c.neighborhood_type);
            let ghost mid = crate::text::strings_view(parts@);
            let mut j: usize = 0;
            while j < lines.len()
                invariant
                    j <= lines@.len(),
                    crate::text::strings_view(parts@) == mid + crate::text::strings_view(lines@).take(j as int),
                decreases lines.len() - j,
            {
                let ghost bp = crate::text::strings_view(parts@);
                parts.push(lines[j].clone());
                assert(crate::text::strings_view(parts@) =~= bp.push(lines@[j as int]@));
                assert(crate::text::strings_view(lines@).take(j + 1) =~= crate::text::strings_view(
                    lines@,
                ).take(j as int).push(lines@[j as int]@));
                assert(crate::text::strings_view(parts@) =~= mid + crate::text::strings_view(lines@).take(j + 1));
                j = j + 1;
            }
            proof {
                assert(crate::text::strings_view(lines@).take(lines@.len() as int) == crate::text::strings_view(lines@));
                if before.len() == 0 {
                    assert(mid =~= before);
                } else {
                    assert(mid =~= before.push(seq![]));
                }
            }
            n = n + 1;
        }
        k = k + 1;
    }
    assert(pi.take(pi.len() as int) =~= pi);
    n
}

/// Estimated LLM tokens of the included candidates of category `cat`.
fn category_tokens_exec(cands: &Vec<Candidate>, inc: &Vec<usize>, cat: RecallCategory) -> (t: usize)
    requires
        forall|k: int| 0 <= k < inc@.len() ==> #[trigger] inc@[k] < cands@.len(),
    ensures
        t == category_tokens(cand_views(cands@), positions(inc@), cat),
{
    let ghost cv = cand_views(cands@);
    let ghost pi = positions(inc@);
    let mut t: usize = 0;
    let mut k: usize = 0;
    while k < inc.len()
        invariant
            k <= inc@.len(),
            cv == cand_views(cands@),
            pi == positions(inc@),
            forall|j: int| 0 <= j < inc@.len() ==> #[trigger] inc@[j] < cands@.len(),
            t == category_tokens(cv, pi.take(k as int), cat),
        decreases inc.len() - k,
    {
        let c = &cands[inc[k]];
        proof {
            assert(pi.take(k + 1).drop_last() =~= pi.take(k as int));
            assert(pi.take(k + 1).last() == inc@[k as int] as int);
            assert(cv[inc@[k as int] as int] == c@);
        }
        if c.category == cat {
            let e = estimate_llm_tokens(c.text.as_str());
            t = t.saturating_add(e);
        }
        k = k + 1;
    }
    assert(pi.take(pi.len() as int) =~= pi);
    t
}

/// Number of distinct neighborhood ids among the candidates.
fn distinct_candidate_ids(cands: &Vec<Candidate>) -> (n: usize)
    ensures
        n == candidate_ids(cand_views(cands@)).to_set().len(),
{
    let ghost all = candidate_ids(cand_views(cands@));
    let mut ids: Vec<u128> = Vec::new();
    let mut i: usize = 0;
    assert(all.take(0).to_set() =~= Set::<u128>::empty());
    assert(ids@.to_set() =~= Set::<u128>::empty());
    while i < cands.len()
        invariant
            i <= cands@.len(),
            all == candidate_ids(cand_views(cands@)),
            ids@.no_duplicates(),
            ids@.to_set() == all.take(i as int).to_set(),
        decreases cands.len() - i,
    {
        let id = cands[i].neighborhood_id;
        proof {
            assert(all[i as int] == id);
            assert(all.take(i + 1) =~= all.take(i as int).push(id));
            all.take(i as int).lemma_push_to_set_commute(id);
        }
        let mut found = false;
        let mut k: usize = 0;
        while k < ids.len()
            invariant
                k <= ids@.len(),
                found == exists|j: int| 0 <= j < k && ids@[j] == id,
            decreases ids.len() - k,
        {
            if ids[k] == id {
                found = true;
            }
            k = k + 1;
        }
        if found {
            assert(ids@.to_set().contains(id));
            assert(ids@.to_set() =~= all.take(i + 1).to_set());
        } else {
            let ghost before = ids@;
            ids.push(id);
            proof {
                assert(!before.contains(id));
                assert forall|a: int, b: int| 0 <= a < ids@.len() && 0 <= b < ids@.len() && a != b implies ids@[a]
                    != ids@[b] by {
                    if a < before.len() && b < before.len() {
                    } else if a < before.len() {
                        assert(before[a] != id);
                    } else {
                        assert(before[b] != id);
                    }
                }
                before.lemma_push_to_set_commute(id);
                assert(ids@.to_set() =~= all.take(i + 1).to_set());
            }
        }
        i = i + 1;
    }
    assert(all.take(all.len() as int) == all);
    proof {
        ids@.unique_seq_to_set();
    }
    ids.len()
}

/// Budget-constrained context composition over candidates given in
/// decreasing score order: the selection of `select_within_budget`, laid
/// out by category (conscious, subconscious, novel) with a blank line
/// between entries, with its metrics and token estimates.
pub fn compose_context_budgeted(system: &DAESystem, candidates: &Vec<Candidate>, budget: &BudgetConfig) -> (r:
    BudgetedContextResult)
    requires
        candidates@.len() <= u32::MAX,
        forall|k: int| 0 <= k < candidates@.len() ==> priced(#[trigger] candidates@[k]@),
        forall|k: int|
            0 <= k < candidates@.len() ==> (#[trigger] candidates@[k]).tokens + ENTRY_HEADER_OVERHEAD_TOKENS
                <= usize::MAX,
        forall|k: int|
            0 <= k < candidates@.len() ==> (#[trigger] candidates@[k]).episode_idx == usize::MAX
                || candidates@[k].episode_idx < system@.episodes.len(),
    ensures
        (positions(r.included@), r.tokens_used as int) == budget_selection(cand_views(candidates@), *budget),
        r.tokens_budget == budget.max_tokens,
        r.tokens_used <= budget.max_tokens,
        forall|j: int|
            0 <= j < r.included@.len() ==> (#[trigger] r.included@[j]) < candidates@.len() && entry_cost(
                candidates@[r.included@[j] as int]@,
            ) == tokens_of(candidates@[r.included@[j] as int].text@).len() + ENTRY_HEADER_OVERHEAD_TOKENS,
        r.context@ == join_with(
            budget_parts(cand_views(candidates@), system@, positions(r.included@)),
            "\n"@,
        ),
        r.metrics.conscious == category_count(cand_views(candidates@), positions(r.included@), RecallCategory::Conscious),
        r.metrics.subconscious == category_count(cand_views(candidates@), positions(r.included@), RecallCategory::Subconscious),
        r.metrics.novel == category_count(cand_views(candidates@), positions(r.included@), RecallCategory::Novel),
        r.excluded_count == if candidate_ids(cand_views(candidates@)).to_set().len() >= r.included@.len() {
            candidate_ids(cand_views(candidates@)).to_set().len() - r.included@.len()
        } else {
            0
        },
        r.token_estimate.conscious == category_tokens(cand_views(candidates@), positions(r.included@), RecallCategory::Conscious),
        r.token_estimate.subconscious == category_tokens(cand_views(candidates@), positions(r.included@), RecallCategory::Subconscious),
        r.token_estimate.novel == category_tokens(cand_views(candidates@), positions(r.included@), RecallCategory::Novel),
        r.token_estimate.total == sat_add(
            sat_add(r.token_estimate.conscious as int, r.token_estimate.subconscious as int),
            r.token_estimate.novel as int,
        ),
{
    let (included, tokens_used) = select_within_budget(candidates, budget);
    proof {
        lemma_budget_selection_sound(cand_views(candidates@), *budget);
        lemma_selection_len(cand_views(candidates@), budget_selection(cand_views(candidates@), *budget), budget.max_tokens as int);
    }
    let mut parts: Vec<String> = Vec::new();
    assert(crate::text::strings_view(parts@) =~= seq![]);
    let nc = add_group_exec(system, candidates, &included, RecallCategory::Conscious, &mut parts);
    let ns = add_group_exec(system, candidates, &included, RecallCategory::Subconscious, &mut parts);
    let nn = add_group_exec(system, candidates, &included, RecallCategory::Novel, &mut parts);
    proof {
        lemma_category_count(cand_views(candidates@), system@, positions(included@), RecallCategory::Conscious, seq![]);
        lemma_category_count(
            cand_views(candidates@),
            system@,
            positions(included@),
            RecallCategory::Subconscious,
            add_group(cand_views(candidates@), system@, positions(included@), RecallCategory::Conscious, seq![]).0,
        );
        lemma_category_count(
            cand_views(candidates@),
            system@,
            positions(included@),
            RecallCategory::Novel,
            add_group(
                cand_views(candidates@),
                system@,
                positions(included@),
                RecallCategory::Subconscious,
                add_group(cand_views(candidates@), system@, positions(included@), RecallCategory::Conscious, seq![]).0,
            ).0,
        );
    }
    let context = join_lines(&parts);
    let te_c = category_tokens_exec(candidates, &included, RecallCategory::Conscious);
    let te_s = category_tokens_exec(candidates, &included, RecallCategory::Subconscious);
    let te_n = category_tokens_exec(candidates, &included, RecallCategory::Novel);
    let distinct = distinct_candidate_ids(candidates);
    let excluded_count = distinct.saturating_sub(included.len());
    BudgetedContextResult {
        context,
        metrics: ContextMetrics { conscious: nc as u32, subconscious: ns as u32, novel: nn as u32 },
        included,
        excluded_count,
        tokens_used,
        tokens_budget: budget.max_tokens,
        token_estimate: TokenEstimate {
            conscious: te_c,
            subconscious: te_s,
            novel: te_n,
            total: te_c.saturating_add(te_s).saturating_add(te_n),
        },
    }
}

/// A sound selection includes each candidate at most once.
pub proof fn lemma_selection_len(cands: Seq<CandidateView>, st: Selection, max: int)
    requires
        sound_selection(cands, st, max),
    ensures
        st.0.len() <= cands.len(),
{
    assert(st.0.no_duplicates()) by {
        assert forall|k: int, l: int| 0 <= k < st.0.len() && 0 <= l < st.0.len() && k != l implies st.0[k]
            != st.0[l] by {
            if k < l {
                assert(cands[st.0[k]].neighborhood_id != cands[st.0[l]].neighborhood_id);
            } else {
                assert(cands[st.0[l]].neighborhood_id != cands[st.0[k]].neighborhood_id);
            }
        }
    }
    st.0.unique_seq_to_set();
    vstd::set_lib::lemma_int_range(0, cands.len() as int);
    assert(st.0.to_set().subset_of(vstd::set_lib::set_int_range(0, cands.len() as int)));
    vstd::set_lib::lemma_len_subset(st.0.to_set(), vstd::set_lib::set_int_range(0, cands.len() as int));
}

/// The number of entries of a group is the number of included candidates of
/// its category.
proof fn lemma_category_count(
    cands: Seq<CandidateView>,
    s: SystemView,
    inc: Seq<int>,
    cat: RecallCategory,
    parts: Seq<Seq<char>>,
)
    ensures
        add_group(cands, s, inc, cat, parts).1 == category_count(cands, inc, cat),
    decreases inc.len(),
{
    if inc.len() > 0 {
        lemma_category_count(cands, s, inc.drop_last(), cat, parts);
    }
}

/// The positions of the first `k` candidates, among the first `n`, of
/// category `cat` whose neighborhood is neither in `taken` nor already
/// picked.
pub open spec fn pick(cands: Seq<CandidateView>, cat: RecallCategory, taken: Seq<u128>, k: int, n: int) -> Seq<int>
    decreases n,
{
    if n <= 0 {
        seq![]
    } else {
        let p = pick(cands, cat, taken, k, n - 1);
        let c = cands[n - 1];
        if p.len() < k && c.category == cat && !taken.contains(c.neighborhood_id) && !ids_of(
            cands,
            p,
        ).contains(c.neighborhood_id) {
            p.push(n - 1)
        } else {
            p
        }
    }
}

/// The neighborhood ids of the candidates at `inc`.
pub open spec fn ids_of(cands: Seq<CandidateView>, inc: Seq<int>) -> Seq<u128> {
    inc.map_values(|i: int| cands[i].neighborhood_id)
}

/// The ids of what `pick` picks are distinct and none of them is in `taken`.
proof fn lemma_pick_distinct(cands: Seq<CandidateView>, cat: RecallCategory, taken: Seq<u128>, k: int, n: int)
    ensures
        ids_of(cands, pick(cands, cat, taken, k, n)).no_duplicates(),
        forall|j: int|
            0 <= j < pick(cands, cat, taken, k, n).len() ==> !taken.contains(
                #[trigger] ids_of(cands, pick(cands, cat, taken, k, n))[j],
            ),
    decreases n,
{
    if n > 0 {
        lemma_pick_distinct(cands, cat, taken, k, n - 1);
        let p = pick(cands, cat, taken, k, n - 1);
        let c = cands[n - 1];
        if p.len() < k && c.category == cat && !taken.contains(c.neighborhood_id) && !ids_of(
            cands,
            p,
        ).contains(c.neighborhood_id) {
            let ip = ids_of(cands, p);
            assert(ids_of(cands, p.push(n - 1)) =~= ip.push(c.neighborhood_id));
            assert forall|a: int, b: int|
                0 <= a < ip.push(c.neighborhood_id).len() && 0 <= b < ip.push(c.neighborhood_id).len() && a
                    != b implies ip.push(c.neighborhood_id)[a] != ip.push(c.neighborhood_id)[b] by {
                if a < ip.len() && b < ip.len() {
                } else if a < ip.len() {
                    assert(ip.contains(ip[a]));
                } else {
                    assert(ip.contains(ip[b]));
                }
            }
            assert forall|j: int| 0 <= j < p.push(n - 1).len() implies !taken.contains(
                #[trigger] ids_of(cands, p.push(n - 1))[j],
            ) by {
                if j < p.len() {
                    assert(ids_of(cands, p.push(n - 1))[j] == ip[j]);
                }
            }
        }
    }
}

/// The ids of the three groups of recall picks are pairwise distinct.
proof fn lemma_recall_ids_distinct(cands: Seq<CandidateView>)
    ensures
        ({
            let picks = recall_picks(cands);
            ids_of(cands, picks.0 + picks.1 + picks.2).no_duplicates()
        }),
{
    let n = cands.len() as int;
    let picks = recall_picks(cands);
    let ic = ids_of(cands, picks.0);
    let is = ids_of(cands, picks.1);
    let iv = ids_of(cands, picks.2);
    lemma_pick_distinct(cands, RecallCategory::Conscious, seq![], 1, n);
    lemma_pick_distinct(cands, RecallCategory::Subconscious, ic, 2, n);
    lemma_pick_distinct(cands, RecallCategory::Novel, ic + is, 1, n);
    let all = ic + is + iv;
    assert(ids_of(cands, picks.0 + picks.1 + picks.2) =~= all);
    assert forall|a: int, b: int| 0 <= a < b < all.len() implies all[a] != all[b] by {
        let lc = ic.len() as int;
        let ls = is.len() as int;
        if b < lc {
        } else if b < lc + ls {
            if a >= lc {
            } else {
                assert(all[b] == is[b - lc]);
                assert(!ic.contains(is[b - lc]));
                assert(ic[a] == all[a]);
            }
        } else {
            assert(all[b] == iv[b - lc - ls]);
            assert(!(ic + is).contains(iv[b - lc - ls]));
            if a < lc {
                assert((ic + is)[a] == all[a]);
            } else if a < lc + ls {
                assert((ic + is)[a] == all[a]);
            } else {
                assert(iv[a - lc - ls] == all[a]);
            }
        }
    }
}

/// The fixed-size recall: the best conscious candidate, the best two
/// subconscious ones not already chosen, and the best novel one not already
/// chosen.
pub open spec fn recall_picks(cands: Seq<CandidateView>) -> (Seq<int>, Seq<int>, Seq<int>) {
    let n = cands.len() as int;
    let c = pick(cands, RecallCategory::Conscious, seq![], 1, n);
    let sub = pick(cands, RecallCategory::Subconscious, ids_of(cands, c), 2, n);
    let nov = pick(cands, RecallCategory::Novel, ids_of(cands, c) + ids_of(cands, sub), 1, n);
    (c, sub, nov)
}

/// Neighborhood ids by recall category.
pub struct CategorizedIds {
    pub conscious: Vec<u128>,
    pub subconscious: Vec<u128>,
    pub novel: Vec<u128>,
}

/// Result of fixed-size context composition.
pub struct ContextResult {
    pub context: String,
    pub metrics: ContextMetrics,
    /// The distinct neighborhood ids included.
    pub included_ids: Vec<u128>,
    /// Neighborhood ids by recall category.
    pub recalled_ids: CategorizedIds,
    /// Estimated LLM token cost of the recalled content.
    pub token_estimate: TokenEstimate,
}

/// Positions of the first `k` candidates of category `cat` whose
/// neighborhood is not in `taken`.
fn pick_exec(cands: &Vec<Candidate>, cat: RecallCategory, taken: &Vec<u128>, k: usize) -> (r: Vec<usize>)
    ensures
        positions(r@) == pick(cand_views(cands@), cat, taken@, k as int, cands@.len() as int),
        forall|j: int| 0 <= j < r@.len() ==> #[trigger] r@[j] < cands@.len(),
        r@.len() <= k,
{
    let ghost cv = cand_views(cands@);
    let mut r: Vec<usize> = Vec::new();
    let mut i: usize = 0;
    assert(positions(r@) =~= seq![]);
    while i < cands.len()
        invariant
            i <= cands@.len(),
            cv == cand_views(cands@),
            positions(r@) == pick(cv, cat, taken@, k as int, i as int),
            forall|j: int| 0 <= j < r@.len() ==> #[trigger] r@[j] < cands@.len(),
            r@.len() <= k,
        decreases cands.len() - i,
    {
        let c = &cands[i];
        assert(cv[i as int] == c@);
        if r.len() < k && c.category == cat {
            let mut seen = false;
            let mut j: usize = 0;
            while j < taken.len()
                invariant
                    j <= taken@.len(),
                    seen == exists|x: int| 0 <= x < j && taken@[x] == c.neighborhood_id,
                decreases taken.len() - j,
            {
                if taken[j] == c.neighborhood_id {
                    seen = true;
                }
                j = j + 1;
            }
            let ghost picked = ids_of(cv, positions(r@));
            let mut again = false;
            let mut j: usize = 0;
            while j < r.len()
                invariant
                    j <= r@.len(),
                    cv == cand_views(cands@),
                    picked == ids_of(cv, positions(r@)),
                    forall|x: int| 0 <= x < r@.len() ==> #[trigger] r@[x] < cands@.len(),
                    again == exists|x: int| 0 <= x < j && picked[x] == c.neighborhood_id,
                decreases r.len() - j,
            {
                assert(picked[j as int] == cands@[r@[j as int] as int]@.neighborhood_id);
                if cands[r[j]].neighborhood_id == c.neighborhood_id {
                    again = true;
                }
                j = j + 1;
            }
            if !seen && !again {
                r.push(i);
                assert(positions(r@) =~= pick(cv, cat, taken@, k as int, i as int).push(i as int));
            } else {
                assert(taken@.contains(c.neighborhood_id) || picked.contains(c.neighborhood_id));
            }
        }
        i = i + 1;
    }
    r
}

/// The neighborhood ids of the candidates at `inc`.
fn ids_at_positions(cands: &Vec<Candidate>, inc: &Vec<usize>) -> (r: Vec<u128>)
    requires
        forall|j: int| 0 <= j < inc@.len() ==> #[trigger] inc@[j] < cands@.len(),
    ensures
        r@ == ids_of(cand_views(cands@), positions(inc@)),
{
    let mut r: Vec<u128> = Vec::new();
    let mut i: usize = 0;
    while i < inc.len()
        invariant
            i <= inc@.len(),
            forall|j: int| 0 <= j < inc@.len() ==> #[trigger] inc@[j] < cands@.len(),
            r@ == ids_of(cand_views(cands@), positions(inc@)).take(i as int),
        decreases inc.len() - i,
    {
        r.push(cands[inc[i]].neighborhood_id);
        assert(cand_views(cands@)[inc@[i as int] as int] == cands@[inc@[i as int] as int]@);
        assert(r@ =~= ids_of(cand_views(cands@), positions(inc@)).take(i + 1));
        i = i + 1;
    }
    assert(ids_of(cand_views(cands@), positions(inc@)).take(inc@.len() as int) =~= ids_of(
        cand_views(cands@),
        positions(inc@),
    ));
    r
}

/// Fixed-size context composition over candidates given in decreasing score
/// order: the best conscious candidate, the best two subconscious ones and
/// the best novel one not already chosen, laid out in that order with a
/// blank line between entries.
pub fn compose_context(system: &DAESystem, candidates: &Vec<Candidate>) -> (r: ContextResult)
    requires
        forall|k: int|
            0 <= k < candidates@.len() ==> (#[trigger] candidates@[k]).episode_idx == usize::MAX
                || candidates@[k].episode_idx < system@.episodes.len(),
    ensures
        ({
            let cv = cand_views(candidates@);
            let picks = recall_picks(cv);
            let all = picks.0 + picks.1 + picks.2;
            &&& r.recalled_ids.conscious@ == ids_of(cv, picks.0)
            &&& r.recalled_ids.subconscious@ == ids_of(cv, picks.1)
            &&& r.recalled_ids.novel@ == ids_of(cv, picks.2)
            &&& r.included_ids@ == ids_of(cv, all)
            &&& r.included_ids@.no_duplicates()
            &&& r.included_ids@.len() == r.recalled_ids.conscious@.len() + r.recalled_ids.subconscious@.len()
                + r.recalled_ids.novel@.len()
            &&& r.context@ == join_with(budget_parts(cv, system@, all), "\n"@)
            &&& r.metrics.conscious == picks.0.len()
            &&& r.metrics.subconscious == picks.1.len()
            &&& r.metrics.novel == picks.2.len()
            &&& r.token_estimate.conscious == category_tokens(cv, picks.0, RecallCategory::Conscious)
            &&& r.token_estimate.subconscious == category_tokens(cv, picks.1, RecallCategory::Subconscious)
            &&& r.token_estimate.novel == category_tokens(cv, picks.2, RecallCategory::Novel)
            &&& r.token_estimate.total == sat_add(
                sat_add(r.token_estimate.conscious as int, r.token_estimate.subconscious as int),
                r.token_estimate.novel as int,
            )
        }),
{
    let ghost cv = cand_views(candidates@);
    let empty: Vec<u128> = Vec::new();
    let con = pick_exec(candidates, RecallCategory::Conscious, &empty, 1);
    let con_ids = ids_at_positions(candidates, &con);
    let sub = pick_exec(candidates, RecallCategory::Subconscious, &con_ids, 2);
    let sub_ids = ids_at_positions(candidates, &sub);
    let mut taken = con_ids.clone();
    taken.append(&mut sub_ids.clone());
    let nov = pick_exec(candidates, RecallCategory::Novel, &taken, 1);
    let nov_ids = ids_at_positions(candidates, &nov);
    let mut all: Vec<usize> = con.clone();
    all.append(&mut sub.clone());
    all.append(&mut nov.clone());
    assert(positions(all@) =~= positions(con@) + positions(sub@) + positions(nov@));
    assert forall|j: int| 0 <= j < all@.len() implies #[trigger] all@[j] < candidates@.len() by {
        if j < con@.len() {
            assert(all@[j] == con@[j]);
        } else if j < con@.len() + sub@.len() {
            assert(all@[j] == sub@[j - con@.len()]);
        } else {
            assert(all@[j] == nov@[j - con@.len() - sub@.len()]);
        }
    }
    let mut parts: Vec<String> = Vec::new();
    assert(crate::text::strings_view(parts@) =~= seq![]);
    add_group_exec(system, candidates, &all, RecallCategory::Conscious, &mut parts);
    add_group_exec(system, candidates, &all, RecallCategory::Subconscious, &mut parts);
    add_group_exec(system, candidates, &all, RecallCategory::Novel, &mut parts);
    let context = join_lines(&parts);
    let te_c = category_tokens_exec(candidates, &con, RecallCategory::Conscious);
    let te_s = category_tokens_exec(candidates, &sub, RecallCategory::Subconscious);
    let te_n = category_tokens_exec(candidates, &nov, RecallCategory::Novel);
    let all_ids = ids_at_positions(candidates, &all);
    proof {
        lemma_recall_ids_distinct(cv);
    }
    let included_ids = distinct_ids(&all_ids);
    ContextResult {
        context,
        metrics: ContextMetrics {
            conscious: con.len() as u32,
            subconscious: sub.len() as u32,
            novel: nov.len() as u32,
        },
        included_ids,
        recalled_ids: CategorizedIds { conscious: con_ids, subconscious: sub_ids, novel: nov_ids },
        token_estimate: TokenEstimate {
            conscious: te_c,
            subconscious: te_s,
            novel: te_n,
            total: te_c.saturating_add(te_s).saturating_add(te_n),
        },
    }
}

/// `ids` without repeats, first appearances kept.
fn distinct_ids(ids: &Vec<u128>) -> (r: Vec<u128>)
    ensures
        r@.no_duplicates(),
        r@.to_set() == ids@.to_set(),
        ids@.no_duplicates() ==> r@ == ids@,
{
    let mut r: Vec<u128> = Vec::new();
    let mut i: usize = 0;
    assert(ids@.take(0).to_set() =~= Set::<u128>::empty());
    assert(r@.to_set() =~= Set::<u128>::empty());
    while i < ids.len()
        invariant
            i <= ids@.len(),
            r@.no_duplicates(),
            r@.to_set() == ids@.take(i as int).to_set(),
            ids@.no_duplicates() ==> r@ == ids@.take(i as int),
        decreases ids.len() - i,
    {
        let id = ids[i];
        proof {
            assert(ids@.take(i + 1) =~= ids@.take(i as int).push(id));
            ids@.take(i as int).lemma_push_to_set_commute(id);
        }
        let mut found = false;
        let mut k: usize = 0;
        while k < r.len()
            invariant
                k <= r@.len(),
                found == exists|j: int| 0 <= j < k && r@[j] == id,
            decreases r.len() - k,
        {
            if r[k] == id {
                found = true;
            }
            k = k + 1;
        }
        if found {
            assert(r@.to_set().contains(id));
            assert(r@.to_set() =~= ids@.take(i + 1).to_set());
            proof {
                if ids@.no_duplicates() {
                    let j = choose|j: int| 0 <= j < r@.len() && r@[j] == id;
                    assert(ids@[j] == ids@[i as int]);
                }
            }
        } else {
            let ghost before = r@;
            r.push(id);
            proof {
                assert(!before.contains(id));
                assert forall|a: int, b: int| 0 <= a < r@.len() && 0 <= b < r@.len() && a != b implies r@[a]
                    != r@[b] by {
                    if a < before.len() && b < before.len() {
                    } else if a < before.len() {
                        assert(before[a] != id);
                    } else {
                        assert(before[b] != id);
                    }
                }
                before.lemma_push_to_set_commute(id);
                assert(r@.to_set() =~= ids@.take(i + 1).to_set());
                if ids@.no_duplicates() {
                    assert(r@ =~= ids@.take(i + 1));
                }
            }
        }
        i = i + 1;
    }
    assert(ids@.take(ids@.len() as int) == ids@);
    r
}

/// The words of a sequence of occurrences.
pub open spec fn occurrence_words(os: Seq<OccurrenceView>) -> Seq<Seq<char>> {
    os.map_values(|o: OccurrenceView| o.word)
}

/// The text of a neighborhood: its source text, or, when it has none, the
/// words of its occurrences separated by spaces.
pub open spec fn neighborhood_text(n: NeighborhoodView) -> Seq<char> {
    if n.source_text.len() == 0 {
        join_with(occurrence_words(n.occurrences), " "@)
    } else {
        n.source_text
    }
}

/// The text of a neighborhood, computed.
pub fn text_of_neighborhood(n: &Neighborhood) -> (r: String)
    ensures
        r@ == neighborhood_text(n@),
{
    if n.source_text.as_str().is_empty() {
        let ghost ws = occurrence_words(n@.occurrences);
        let mut words: Vec<String> = Vec::new();
        let mut i: usize = 0;
        while i < n.occurrences.len()
            invariant
                i <= n.occurrences@.len(),
                ws == occurrence_words(n@.occurrences),
                crate::text::strings_view(words@) == ws.take(i as int),
            decreases n.occurrences.len() - i,
        {
            let ghost before = crate::text::strings_view(words@);
            words.push(n.occurrences[i].word.clone());
            assert(n@.occurrences[i as int] == n.occurrences@[i as int]@);
            assert(crate::text::strings_view(words@) =~= before.push(ws[i as int]));
            assert(ws.take(i + 1) =~= ws.take(i as int).push(ws[i as int]));
            i = i + 1;
        }
        assert(ws.take(ws.len() as int) =~= ws);
        join_strings(&words, " ")
    } else {
        n.source_text.clone()
    }
}

/// Position of the first neighborhood of `ns` with id `id`, or -1.
pub open spec fn first_with_id(ns: Seq<NeighborhoodView>, id: u128) -> int
    decreases ns.len(),
{
    if ns.len() == 0 {
        -1
    } else {
        let p = first_with_id(ns.drop_last(), id);
        if p >= 0 {
            p
        } else if ns.last().id == id {
            ns.len() - 1
        } else {
            -1
        }
    }
}

/// `first_with_id` finds the first match, and -1 means none.
pub proof fn lemma_first_with_id(ns: Seq<NeighborhoodView>, id: u128)
    ensures
        -1 <= first_with_id(ns, id) < ns.len(),
        first_with_id(ns, id) >= 0 ==> ns[first_with_id(ns, id)].id == id,
        forall|i: int| 0 <= i < ns.len() && (first_with_id(ns, id) < 0 || i < first_with_id(ns, id))
            ==> #[trigger] ns[i].id != id,
    decreases ns.len(),
{
    if ns.len() > 0 {
        lemma_first_with_id(ns.drop_last(), id);
        assert forall|i: int| 0 <= i < ns.len() - 1 implies #[trigger] ns[i] == ns.drop_last()[i] by {}
    }
}

/// The text `get_neighborhood_text` finds: that of the neighborhood at
/// `idx` of episode `e` when it has the id, else that of the episode's first
/// neighborhood with the id, else empty.
pub open spec fn lookup_text(s: SystemView, id: u128, e: usize, idx: usize) -> Seq<char> {
    let ns = s.episode(e).neighborhoods;
    if idx < ns.len() && ns[idx as int].id == id {
        neighborhood_text(ns[idx as int])
    } else if first_with_id(ns, id) >= 0 {
        neighborhood_text(ns[first_with_id(ns, id)])
    } else {
        seq![]
    }
}

/// The text of neighborhood `neighborhood_id`, looked up at
/// `neighborhood_idx` of episode `episode_idx` (`usize::MAX`: the conscious
/// one), and by a scan of that episode when the index is stale.
pub fn get_neighborhood_text(
    system: &DAESystem,
    neighborhood_id: u128,
    episode_idx: usize,
    neighborhood_idx: usize,
) -> (r: String)
    requires
        system@.has_episode(episode_idx),
    ensures
        r@ == lookup_text(system@, neighborhood_id, episode_idx, neighborhood_idx),
{
    let episode = if episode_idx == usize::MAX {
        &system.conscious_episode
    } else {
        assert(system@.episodes[episode_idx as int] == system.episodes@[episode_idx as int]@);
        &system.episodes[episode_idx]
    };
    let ghost ns = system@.episode(episode_idx).neighborhoods;
    assert(episode@.neighborhoods == ns);
    proof {
        lemma_first_with_id(ns, neighborhood_id);
    }
    if neighborhood_idx < episode.neighborhoods.len() {
        assert(ns[neighborhood_idx as int] == episode.neighborhoods@[neighborhood_idx as int]@);
        if episode.neighborhoods[neighborhood_idx].id == neighborhood_id {
            return text_of_neighborhood(&episode.neighborhoods[neighborhood_idx]);
        }
    }
    let mut j: usize = 0;
    while j < episode.neighborhoods.len()
        invariant
            j <= ns.len(),
            ns == episode@.neighborhoods,
            -1 <= first_with_id(ns, neighborhood_id) < ns.len(),
            first_with_id(ns, neighborhood_id) >= 0 ==> ns[first_with_id(ns, neighborhood_id)].id
                == neighborhood_id,
            forall|i: int| 0 <= i < ns.len() && (first_with_id(ns, neighborhood_id) < 0 || i < first_with_id(ns, neighborhood_id))
                ==> #[trigger] ns[i].id != neighborhood_id,
            forall|i: int| 0 <= i < j ==> #[trigger] ns[i].id != neighborhood_id,
            !(neighborhood_idx < ns.len() && ns[neighborhood_idx as int].id == neighborhood_id),
            system@.has_episode(episode_idx),
            ns == system@.episode(episode_idx).neighborhoods,
        decreases ns.len() - j,
    {
        assert(ns[j as int] == episode.neighborhoods@[j as int]@);
        if episode.neighborhoods[j].id == neighborhood_id {
            let ghost f = first_with_id(ns, neighborhood_id);
            assert(ns[j as int].id == neighborhood_id);
            proof {
                if f >= 0 && f < j {
                    assert(ns[f].id == neighborhood_id);
                }
            }
            assert(f == j);
            return text_of_neighborhood(&episode.neighborhoods[j]);
        }
        j = j + 1;
    }
    assert(first_with_id(ns, neighborhood_id) < 0);
    String::new()
}

/// A neighborhood fetched by id, with the name it is cited under and its
/// size in tokens.
pub struct RetrievedFragment {
    pub neighborhood_id: u128,
    pub episode_name: String,
    pub category: RecallCategory,
    pub tokens: usize,
    pub text: String,
    pub neighborhood_type: NeighborhoodType,
}

/// Abstract value of a fetched neighborhood.
pub struct FragmentView {
    pub neighborhood_id: u128,
    pub episode_name: Seq<char>,
    pub category: RecallCategory,
    pub tokens: int,
    pub text: Seq<char>,
    pub neighborhood_type: NeighborhoodType,
}

impl View for RetrievedFragment {
    type V = FragmentView;

    open spec fn view(&self) -> FragmentView {
        FragmentView {
            neighborhood_id: self.neighborhood_id,
            episode_name: self.episode_name@,
            category: self.category,
            tokens: self.tokens as int,
            text: self.text@,
            neighborhood_type: self.neighborhood_type,
        }
    }
}

/// The views of fetched neighborhoods.
pub open spec fn fragment_views(v: Seq<RetrievedFragment>) -> Seq<FragmentView> {
    v.map_values(|f: RetrievedFragment| f@)
}

/// The fragment for neighborhood `id` at `r`: conscious content is cited as
/// previously marked salient, other content by its episode's name.
pub open spec fn fragment_at(s: SystemView, id: u128, r: NeighborhoodRef) -> FragmentView {
    let n = s.neighborhood(r);
    let text = neighborhood_text(n);
    FragmentView {
        neighborhood_id: id,
        episode_name: if r.episode_idx == usize::MAX {
            "Previously marked salient"@
        } else {
            s.episode(r.episode_idx).name
        },
        category: if r.episode_idx == usize::MAX {
            RecallCategory::Conscious
        } else {
            RecallCategory::Subconscious
        },
        tokens: tokens_of(text).len() as int,
        text: text,
        neighborhood_type: n.neighborhood_type,
    }
}

/// The fragments of the ids the system knows, in the order given; unknown
/// ids are skipped.
pub open spec fn retrieved(s: SystemView, ids: Seq<u128>) -> Seq<FragmentView>
    decreases ids.len(),
{
    if ids.len() == 0 {
        seq![]
    } else {
        let prev = retrieved(s, ids.drop_last());
        let id = ids.last();
        if s.neighborhood_locations().contains_key(id) {
            prev.push(fragment_at(s, id, s.neighborhood_locations()[id]))
        } else {
            prev
        }
    }
}

/// Fetches the full content of the given neighborhoods, in the order of
/// `ids`, skipping ids the system does not know.
pub fn retrieve_by_ids(system: &mut DAESystem, ids: &Vec<u128>) -> (r: Vec<RetrievedFragment>)
    requires
        old(system).wf(),
    ensures
        final(system).wf(),
        final(system)@ == old(system)@,
        fragment_views(r@) == retrieved(old(system)@, ids@),
{
    let ghost s = system@;
    proof {
        system.lemma_bounded();
        lemma_locations_valid(s);
    }
    let mut out: Vec<RetrievedFragment> = Vec::new();
    let mut i: usize = 0;
    assert(ids@.take(0) =~= Seq::<u128>::empty());
    while i < ids.len()
        invariant
            i <= ids@.len(),
            system.wf(),
            system@ == s,
            forall|id: u128| #[trigger]
                s.neighborhood_locations().contains_key(id) ==> crate::system::locates(
                    s,
                    id,
                    s.neighborhood_locations()[id],
                ),
            fragment_views(out@) == retrieved(s, ids@.take(i as int)),
        decreases ids.len() - i,
    {
        assert(ids@.take(i + 1).drop_last() =~= ids@.take(i as int));
        let id = ids[i];
        match system.get_neighborhood_ref(id) {
            Some(r) => {
                assert(crate::system::locates(s, id, r));
                let nbhd = system.get_neighborhood(r);
                let text = text_of_neighborhood(nbhd);
                let conscious = r.is_conscious();
                let episode_name = if conscious {
                    "Previously marked salient".to_owned()
                } else {
                    assert(s.episodes[r.episode_idx as int] == system.episodes@[r.episode_idx as int]@);
                    system.episodes[r.episode_idx].name.clone()
                };
                let category = if conscious {
                    RecallCategory::Conscious
                } else {
                    RecallCategory::Subconscious
                };
                let tokens = token_count(text.as_str());
                let frag = RetrievedFragment {
                    neighborhood_id: id,
                    episode_name,
                    category,
                    tokens,
                    text,
                    neighborhood_type: nbhd.neighborhood_type,
                };
                assert(frag@ == fragment_at(s, id, r));
                let ghost before = fragment_views(out@);
                out.push(frag);
                assert(fragment_views(out@) =~= before.push(frag@));
            },
            None => {},
        }
        i = i + 1;
    }
    assert(ids@.take(ids@.len() as int) =~= ids@);
    out
}

} // verus!
