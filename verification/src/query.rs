//! Query activation: a query's distinct words activate their occurrences
//! across both manifolds.
//!
//! Drift, interference and phase coupling move positions and phases on the
//! manifold (floating point) and are run by the caller on what activation
//! returns.
use vstd::prelude::*;

use crate::system::{
    lemma_headroom_activate, lemma_same_layout_occurrence, lemma_same_layout_refs, lemma_word_refs,
    same_layout,
    ActivationResult, DAESystem, OccurrenceRef, SystemView,
};
use crate::text::{lowercase, str_eq, to_lowercase};
use crate::tokenizer::{tokenize, tokens_of};

verus! {

/// `ts` with every token whose lowercase form already occurred dropped.
pub open spec fn dedup_lower(ts: Seq<Seq<char>>) -> Seq<Seq<char>>
    decreases ts.len(),
{
    if ts.len() == 0 {
        seq![]
    } else {
        let prev = dedup_lower(ts.drop_last());
        if exists|i: int| 0 <= i < prev.len() && lowercase(prev[i]) == lowercase(ts.last()) {
            prev
        } else {
            prev.push(ts.last())
        }
    }
}

/// The distinct words of a query, in order of first appearance.
pub open spec fn query_words(query: Seq<char>) -> Seq<Seq<char>> {
    dedup_lower(tokens_of(query))
}

/// The lowercase forms of `ts`.
pub open spec fn lowered(ts: Seq<Seq<char>>) -> Seq<Seq<char>> {
    ts.map_values(|t: Seq<char>| lowercase(t))
}

/// `s` after activating each of `lws` in turn.
pub open spec fn activated_all(s: SystemView, lws: Seq<Seq<char>>) -> SystemView
    decreases lws.len(),
{
    if lws.len() == 0 {
        s
    } else {
        activated_all(s, lws.drop_last()).activated(lws.last())
    }
}

/// Subconscious locations of each of `lws` in turn.
pub open spec fn subconscious_refs_all(s: SystemView, lws: Seq<Seq<char>>) -> Seq<OccurrenceRef>
    decreases lws.len(),
{
    if lws.len() == 0 {
        seq![]
    } else {
        subconscious_refs_all(s, lws.drop_last()) + s.subconscious_refs(lws.last())
    }
}

/// Conscious locations of each of `lws` in turn.
pub open spec fn conscious_refs_all(s: SystemView, lws: Seq<Seq<char>>) -> Seq<OccurrenceRef>
    decreases lws.len(),
{
    if lws.len() == 0 {
        seq![]
    } else {
        conscious_refs_all(s, lws.drop_last()) + s.conscious_refs(lws.last())
    }
}

/// Activating words keeps the layout and uses up headroom.
pub proof fn lemma_activated_all(s: SystemView, lws: Seq<Seq<char>>, k: int)
    requires
        s.headroom(k),
        lws.len() <= k,
    ensures
        same_layout(s, activated_all(s, lws)),
        activated_all(s, lws).headroom(k - lws.len()),
    decreases lws.len(),
{
    if lws.len() > 0 {
        lemma_activated_all(s, lws.drop_last(), k);
        let m = activated_all(s, lws.drop_last());
        lemma_headroom_activate(m, lws.last(), k - lws.drop_last().len());
        crate::system::lemma_same_layout_trans(s, m, m.activated(lws.last()));
    }
}

/// How many of `lws` equal `x`.
pub open spec fn count_matching(lws: Seq<Seq<char>>, x: Seq<char>) -> nat
    decreases lws.len(),
{
    if lws.len() == 0 {
        0
    } else {
        count_matching(lws.drop_last(), x) + if lws.last() == x {
            1nat
        } else {
            0nat
        }
    }
}

/// Activating one word changes each occurrence as `activated_if` says.
pub proof fn lemma_activated_occurrence(s: SystemView, lw: Seq<char>, r: OccurrenceRef)
    requires
        s.has_occurrence(r),
    ensures
        s.activated(lw).has_occurrence(r),
        s.activated(lw).occurrence(r) == crate::neighborhood::activated_if(s.occurrence(r), lw),
{
    let a = s.activated(lw);
    let n = r.neighborhood_idx as int;
    let o = r.occurrence_idx as int;
    if r.episode_idx == usize::MAX {
        assert(a.conscious.neighborhoods[n] == crate::system::nbhd_activated(
            s.conscious.neighborhoods[n],
            lw,
        ));
    } else {
        let e = r.episode_idx as int;
        assert(a.episodes[e] == crate::system::episode_activated(s.episodes[e], lw));
        assert(a.episodes[e].neighborhoods[n] == crate::system::nbhd_activated(
            s.episodes[e].neighborhoods[n],
            lw,
        ));
    }
}

/// Activating a sequence of words raises each occurrence by the number of
/// those words that its own word lowercases to, and changes nothing else.
pub proof fn lemma_activated_all_count(s: SystemView, lws: Seq<Seq<char>>, r: OccurrenceRef)
    requires
        s.headroom(lws.len() as int),
        s.has_occurrence(r),
    ensures
        activated_all(s, lws).has_occurrence(r),
        activated_all(s, lws).occurrence(r) == s.occurrence(r).with_count(
            (s.occurrence(r).activation_count + count_matching(
                lws,
                lowercase(s.occurrence(r).word),
            )) as u32,
        ),
    decreases lws.len(),
{
    let x = lowercase(s.occurrence(r).word);
    if lws.len() == 0 {
        assert(s.occurrence(r).with_count(s.occurrence(r).activation_count) == s.occurrence(r));
    } else {
        let prev = lws.drop_last();
        lemma_activated_all_count(s, prev, r);
        let m = activated_all(s, prev);
        lemma_activated_all(s, prev, lws.len() as int);
        crate::system::lemma_count_bound_from_headroom(s, r, lws.len() as int);
        lemma_count_matching_bound(prev, x);
        lemma_activated_occurrence(m, lws.last(), r);
    }
}

/// A count of matches is at most the number of words.
pub proof fn lemma_count_matching_bound(lws: Seq<Seq<char>>, x: Seq<char>)
    ensures
        count_matching(lws, x) <= lws.len(),
    decreases lws.len(),
{
    if lws.len() > 0 {
        lemma_count_matching_bound(lws.drop_last(), x);
    }
}

/// Every location reported for `lws` names an occurrence of the right
/// manifold.
pub proof fn lemma_refs_all_valid(s: SystemView, lws: Seq<Seq<char>>)
    requires
        s.bounded(),
    ensures
        forall|k: int|
            0 <= k < subconscious_refs_all(s, lws).len() ==> s.has_occurrence(
                #[trigger] subconscious_refs_all(s, lws)[k],
            ) && subconscious_refs_all(s, lws)[k].episode_idx != usize::MAX,
        forall|k: int|
            0 <= k < conscious_refs_all(s, lws).len() ==> s.has_occurrence(
                #[trigger] conscious_refs_all(s, lws)[k],
            ) && conscious_refs_all(s, lws)[k].episode_idx == usize::MAX,
    decreases lws.len(),
{
    if lws.len() > 0 {
        lemma_refs_all_valid(s, lws.drop_last());
        lemma_word_refs(s, lws.last());
        let a = subconscious_refs_all(s, lws.drop_last());
        let b = s.subconscious_refs(lws.last());
        assert forall|k: int| 0 <= k < (a + b).len() implies s.has_occurrence(#[trigger] (a + b)[k])
            && (a + b)[k].episode_idx != usize::MAX by {
            if k < a.len() {
                assert((a + b)[k] == a[k]);
            } else {
                assert((a + b)[k] == b[k - a.len()]);
            }
        }
        let c = conscious_refs_all(s, lws.drop_last());
        let d = s.conscious_refs(lws.last());
        assert forall|k: int| 0 <= k < (c + d).len() implies s.has_occurrence(#[trigger] (c + d)[k])
            && (c + d)[k].episode_idx == usize::MAX by {
            if k < c.len() {
                assert((c + d)[k] == c[k]);
            } else {
                assert((c + d)[k] == d[k - c.len()]);
            }
        }
    }
}

/// The distinct tokens of `tokens` (ignoring case), in order of first
/// appearance.
pub fn dedup_tokens(tokens: &Vec<String>) -> (unique: Vec<String>)
    ensures
        crate::text::strings_view(unique@) == dedup_lower(crate::text::strings_view(tokens@)),
{
    let ghost tv = crate::text::strings_view(tokens@);
    let mut unique: Vec<String> = Vec::new();
    let mut lowers: Vec<String> = Vec::new();
    let mut i: usize = 0;
    while i < tokens.len()
        invariant
            i <= tokens@.len(),
            tv == crate::text::strings_view(tokens@),
            crate::text::strings_view(unique@) == dedup_lower(tv.take(i as int)),
            lowers@.len() == unique@.len(),
            forall|j: int| 0 <= j < lowers@.len() ==> (#[trigger] lowers@[j])@ == lowercase(unique@[j]@),
        decreases tokens.len() - i,
    {
        let ghost prev = dedup_lower(tv.take(i as int));
        assert(tv.take(i + 1).drop_last() == tv.take(i as int));
        assert(tv.take(i + 1).last() == tokens@[i as int]@);
        let lw = to_lowercase(tokens[i].as_str());
        let mut seen = false;
        let mut j: usize = 0;
        while j < lowers.len()
            invariant
                j <= lowers@.len(),
                lowers@.len() == unique@.len(),
                prev == crate::text::strings_view(unique@),
                forall|x: int| 0 <= x < lowers@.len() ==> (#[trigger] lowers@[x])@ == lowercase(unique@[x]@),
                seen == exists|x: int| 0 <= x < j && lowercase(prev[x]) == lw@,
            decreases lowers.len() - j,
        {
            if str_eq(lowers[j].as_str(), lw.as_str()) {
                assert(lowercase(prev[j as int]) == lw@);
                seen = true;
            }
            j = j + 1;
        }
        if !seen {
            let ghost before = crate::text::strings_view(unique@);
            unique.push(tokens[i].clone());
            lowers.push(lw);
            assert(crate::text::strings_view(unique@) =~= before.push(tokens@[i as int]@));
        }
        i = i + 1;
    }
    assert(tv.take(tv.len() as int) == tv);
    unique
}

/// The number of distinct words of a query (ignoring case).
pub fn query_token_count(query: &str) -> (n: usize)
    ensures
        n == query_words(query@).len(),
{
    let tokens = tokenize(query);
    let unique = dedup_tokens(&tokens);
    unique.len()
}

/// Stateless query processor operating on a system.
pub struct QueryEngine;

impl QueryEngine {
    /// Activate a query: tokenize, keep the distinct words, activate every
    /// matching occurrence. Returns the locations, split by manifold, and the
    /// ids of the activated occurrences (subconscious first).
    pub fn activate(system: &mut DAESystem, query: &str) -> (r: (ActivationResult, Vec<u128>))
        requires
            old(system).wf(),
            old(system)@.headroom(query_words(query@).len() as int),
        ensures
            final(system).wf(),
            final(system)@ == activated_all(old(system)@, lowered(query_words(query@))),
            r.0.subconscious@ == subconscious_refs_all(old(system)@, lowered(query_words(query@))),
            r.0.conscious@ == conscious_refs_all(old(system)@, lowered(query_words(query@))),
            r.1@.len() == r.0.subconscious@.len() + r.0.conscious@.len(),
            forall|k: int|
                0 <= k < r.1@.len() ==> #[trigger] r.1@[k] == old(system)@.occurrence(
                    (r.0.subconscious@ + r.0.conscious@)[k],
                ).id,
    {
        let tokens = tokenize(query);
        let unique = dedup_tokens(&tokens);
        let ghost words = crate::text::strings_view(unique@);
        let ghost lws = lowered(words);
        let ghost start = system@;
        proof {
            lemma_activated_all(start, lws, lws.len() as int);
            system.lemma_bounded();
        }
        let mut subconscious: Vec<OccurrenceRef> = Vec::new();
        let mut conscious: Vec<OccurrenceRef> = Vec::new();
        let mut i: usize = 0;
        while i < unique.len()
            invariant
                i <= unique@.len(),
                words == crate::text::strings_view(unique@),
                lws == lowered(words),
                start.headroom(lws.len() as int),
                system.wf(),
                system@ == activated_all(start, lws.take(i as int)),
                subconscious@ == subconscious_refs_all(start, lws.take(i as int)),
                conscious@ == conscious_refs_all(start, lws.take(i as int)),
            decreases unique.len() - i,
        {
            proof {
                lemma_activated_all(start, lws.take(i as int), lws.len() as int);
                lemma_headroom_activate(system@, lws[i as int], lws.len() - i);
                lemma_same_layout_refs(start, system@, lws[i as int]);
                assert(lws.take(i + 1).drop_last() == lws.take(i as int));
                assert(lws.take(i + 1).last() == lws[i as int]);
                assert(lws[i as int] == lowercase(unique@[i as int]@));
            }
            let activation = system.activate_word(unique[i].as_str());
            subconscious.append(&mut activation.subconscious.clone());
            conscious.append(&mut activation.conscious.clone());
            i = i + 1;
        }
        assert(lws.take(lws.len() as int) == lws);
        let mut ids: Vec<u128> = Vec::new();
        proof {
            lemma_activated_all(start, lws, lws.len() as int);
            lemma_refs_all_valid(start, lws);
        }
        let ghost all = subconscious@ + conscious@;
        assert forall|j: int| 0 <= j < all.len() implies start.has_occurrence(#[trigger] all[j]) by {
            if j < subconscious@.len() {
                assert(all[j] == subconscious@[j]);
            } else {
                assert(all[j] == conscious@[j - subconscious@.len()]);
            }
        }
        let mut k: usize = 0;
        while k < subconscious.len()
            invariant
                k <= subconscious@.len(),
                all == subconscious@ + conscious@,
                same_layout(start, system@),
                forall|j: int| 0 <= j < all.len() ==> start.has_occurrence(#[trigger] all[j]),
                ids@.len() == k,
                forall|j: int| 0 <= j < k ==> #[trigger] ids@[j] == start.occurrence(all[j]).id,
            decreases subconscious.len() - k,
        {
            let r = subconscious[k];
            assert(r == all[k as int]);
            proof {
                lemma_same_layout_occurrence(start, system@, r);
            }
            let id = system.get_occurrence(r).id;
            ids.push(id);
            k = k + 1;
        }
        let mut k: usize = 0;
        while k < conscious.len()
            invariant
                k <= conscious@.len(),
                all == subconscious@ + conscious@,
                same_layout(start, system@),
                forall|j: int| 0 <= j < all.len() ==> start.has_occurrence(#[trigger] all[j]),
                ids@.len() == subconscious@.len() + k,
                forall|j: int|
                    0 <= j < subconscious@.len() + k ==> #[trigger] ids@[j] == start.occurrence(
                        all[j],
                    ).id,
            decreases conscious.len() - k,
        {
            let r = conscious[k];
            assert(r == all[subconscious@.len() + k]);
            proof {
                lemma_same_layout_occurrence(start, system@, r);
            }
            let id = system.get_occurrence(r).id;
            ids.push(id);
            k = k + 1;
        }
        (ActivationResult { subconscious, conscious }, ids)
    }

    /// Activate a query when every occurrence can take one more activation
    /// per distinct word of the query; otherwise change nothing and return
    /// `None`.
    pub fn try_activate(system: &mut DAESystem, query: &str) -> (r: Option<(ActivationResult, Vec<u128>)>)
        requires
            old(system).wf(),
        ensures
            final(system).wf(),
            r.is_some() == old(system)@.headroom(query_words(query@).len() as int),
            r.is_none() ==> final(system)@ == old(system)@,
            r matches Some(a) ==> {
                &&& final(system)@ == activated_all(old(system)@, lowered(query_words(query@)))
                &&& a.0.subconscious@ == subconscious_refs_all(old(system)@, lowered(query_words(query@)))
                &&& a.0.conscious@ == conscious_refs_all(old(system)@, lowered(query_words(query@)))
                &&& a.1@.len() == a.0.subconscious@.len() + a.0.conscious@.len()
                &&& forall|k: int|
                    0 <= k < a.1@.len() ==> #[trigger] a.1@[k] == old(system)@.occurrence(
                        (a.0.subconscious@ + a.0.conscious@)[k],
                    ).id
            },
    {
        let n = query_token_count(query);
        if !system.has_headroom(n) {
            return None;
        }
        Some(QueryEngine::activate(system, query))
    }
}

} // verus!
