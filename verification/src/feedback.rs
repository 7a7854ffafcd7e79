//! Relevance feedback: demote the occurrences of unhelpful recalls, or find
//! those of helpful ones to boost.
//!
//! Boosting moves positions toward the query's centroid on the manifold
//! (floating point) and is run by the caller on the targets found here.
use vstd::prelude::*;

use crate::query::{dedup_tokens, lowered, query_words};
use crate::system::{
    lemma_same_layout_occurrence, lemma_with_count_same_layout, same_layout, DAESystem,
    OccurrenceRef, SystemView,
};
use crate::text::lowercase;
use crate::tokenizer::tokenize;

verus! {

/// Feedback signal: did the recalled content help?
#[derive(Clone, Copy, Debug, PartialEq, Eq, Structural)]
pub enum FeedbackSignal {
    /// The recall was useful: drift occurrences toward the query region.
    Boost,
    /// The recall was not useful: decay activation.
    Demote,
}

/// Activation count decrement per demote signal (saturating at 0).
pub const DEMOTE_DECAY: u32 = 2;

/// A count after one demotion.
pub open spec fn demoted_count(c: u32) -> u32 {
    if c >= DEMOTE_DECAY {
        (c - DEMOTE_DECAY) as u32
    } else {
        0
    }
}

/// Locations of each word of `lws` in turn, subconscious then conscious for
/// each word.
pub open spec fn word_refs_all(s: SystemView, lws: Seq<Seq<char>>) -> Seq<OccurrenceRef>
    decreases lws.len(),
{
    if lws.len() == 0 {
        seq![]
    } else {
        word_refs_all(s, lws.drop_last()) + s.subconscious_refs(lws.last()) + s.conscious_refs(
            lws.last(),
        )
    }
}

/// Whether `ids` holds `id`.
pub open spec fn holds_id(ids: Seq<u128>, id: u128) -> bool {
    ids.contains(id)
}

/// Whether the occurrence at a location lies in one of the neighborhoods
/// `ids` of `s`.
pub open spec fn in_neighborhoods(s: SystemView, ids: Seq<u128>) -> spec_fn(OccurrenceRef) -> bool {
    |x: OccurrenceRef| holds_id(ids, s.container(x).id)
}

/// `s` after demoting the occurrences at `refs`, in turn.
pub open spec fn demote_all(s: SystemView, refs: Seq<OccurrenceRef>) -> SystemView
    decreases refs.len(),
{
    if refs.len() == 0 {
        s
    } else {
        let m = demote_all(s, refs.drop_last());
        let o = m.occurrence(refs.last());
        m.with_occurrence(refs.last(), o.with_count(demoted_count(o.activation_count)))
    }
}

/// The (id, new count) of each demotion of `refs` that changed a count.
pub open spec fn demote_record(s: SystemView, refs: Seq<OccurrenceRef>) -> Seq<(u128, u32)>
    decreases refs.len(),
{
    if refs.len() == 0 {
        seq![]
    } else {
        let m = demote_all(s, refs.drop_last());
        let o = m.occurrence(refs.last());
        if o.activation_count > 0 {
            demote_record(s, refs.drop_last()).push((o.id, demoted_count(o.activation_count)))
        } else {
            demote_record(s, refs.drop_last())
        }
    }
}

/// Demoting keeps the layout.
pub proof fn lemma_demote_all_layout(s: SystemView, refs: Seq<OccurrenceRef>)
    requires
        forall|k: int| 0 <= k < refs.len() ==> s.has_occurrence(#[trigger] refs[k]),
    ensures
        same_layout(s, demote_all(s, refs)),
    decreases refs.len(),
{
    if refs.len() == 0 {
        crate::system::lemma_same_layout_refl(s);
    } else {
        lemma_demote_all_layout(s, refs.drop_last());
        let m = demote_all(s, refs.drop_last());
        assert(s.has_occurrence(refs[refs.len() - 1]));
        lemma_same_layout_occurrence(s, m, refs.last());
        lemma_with_count_same_layout(
            m,
            refs.last(),
            demoted_count(m.occurrence(refs.last()).activation_count),
        );
        crate::system::lemma_same_layout_trans(s, m, demote_all(s, refs));
    }
}

/// The occurrences of the query's words (each distinct word once; per word,
/// subconscious then conscious), and among them those that lie in one of the
/// neighborhoods `neighborhood_ids`.
pub fn feedback_targets(system: &mut DAESystem, query: &str, neighborhood_ids: &Vec<u128>) -> (r: (
    Vec<OccurrenceRef>,
    Vec<OccurrenceRef>,
))
    requires
        old(system).wf(),
    ensures
        final(system).wf(),
        final(system)@ == old(system)@,
        r.0@ == word_refs_all(old(system)@, lowered(query_words(query@))),
        r.1@ == r.0@.filter(in_neighborhoods(old(system)@, neighborhood_ids@)),
{
    let tokens = tokenize(query);
    let unique = dedup_tokens(&tokens);
    let ghost words = crate::text::strings_view(unique@);
    let ghost lws = lowered(words);
    let ghost start = system@;
    let mut query_refs: Vec<OccurrenceRef> = Vec::new();
    let mut i: usize = 0;
    assert(lws.take(0) =~= seq![]);
    while i < unique.len()
        invariant
            i <= unique@.len(),
            words == crate::text::strings_view(unique@),
            lws == lowered(words),
            system.wf(),
            system@ == start,
            query_refs@ == word_refs_all(start, lws.take(i as int)),
        decreases unique.len() - i,
    {
        let refs = system.get_word_occurrences(unique[i].as_str());
        proof {
            assert(lws.take(i + 1).drop_last() == lws.take(i as int));
            assert(lws.take(i + 1).last() == lowercase(unique@[i as int]@));
        }
        query_refs.append(&mut refs.clone());
        assert(query_refs@ =~= word_refs_all(start, lws.take(i + 1)));
        i = i + 1;
    }
    assert(lws.take(lws.len() as int) == lws);
    proof {
        system.lemma_bounded();
        lemma_word_refs_all_valid(start, lws);
    }
    let mut targets: Vec<OccurrenceRef> = Vec::new();
    let ghost qr = query_refs@;
    let ghost pred = in_neighborhoods(start, neighborhood_ids@);
    let mut k: usize = 0;
    assert(qr.take(0).filter(pred) =~= seq![]);
    while k < query_refs.len()
        invariant
            k <= qr.len(),
            qr == query_refs@,
            system@ == start,
            forall|j: int| 0 <= j < qr.len() ==> start.has_occurrence(#[trigger] qr[j]),
            pred == in_neighborhoods(start, neighborhood_ids@),
            targets@ == qr.take(k as int).filter(pred),
        decreases query_refs.len() - k,
    {
        let r = query_refs[k];
        let id = system.get_neighborhood_for_occurrence(r).id;
        let mut found = false;
        let mut j: usize = 0;
        while j < neighborhood_ids.len()
            invariant
                j <= neighborhood_ids@.len(),
                found == exists|x: int| 0 <= x < j && neighborhood_ids@[x] == id,
            decreases neighborhood_ids.len() - j,
        {
            if neighborhood_ids[j] == id {
                found = true;
            }
            j = j + 1;
        }
        assert(found == holds_id(neighborhood_ids@, id));
        assert(id == start.container(r).id);
        assert(pred(r) == holds_id(neighborhood_ids@, start.container(r).id));
        assert(pred(r) == found);
        proof {
            assert(qr.take(k + 1) =~= qr.take(k as int).push(r));
            qr.take(k as int).lemma_filter_push(r, pred);
        }
        if found {
            targets.push(r);
        }
        assert(targets@ == qr.take(k + 1).filter(pred));
        k = k + 1;
    }
    assert(qr.take(qr.len() as int) == qr);
    (query_refs, targets)
}

/// Every location found for the query's words names an occurrence.
pub proof fn lemma_word_refs_all_valid(s: SystemView, lws: Seq<Seq<char>>)
    requires
        s.bounded(),
    ensures
        forall|k: int|
            0 <= k < word_refs_all(s, lws).len() ==> s.has_occurrence(#[trigger] word_refs_all(s, lws)[k]),
    decreases lws.len(),
{
    if lws.len() > 0 {
        lemma_word_refs_all_valid(s, lws.drop_last());
        crate::system::lemma_word_refs(s, lws.last());
        let a = word_refs_all(s, lws.drop_last());
        let b = s.subconscious_refs(lws.last());
        let c = s.conscious_refs(lws.last());
        assert forall|k: int| 0 <= k < (a + b + c).len() implies s.has_occurrence(#[trigger] (a + b + c)[k]) by {
            if k < a.len() {
                assert((a + b + c)[k] == a[k]);
            } else if k < a.len() + b.len() {
                assert((a + b + c)[k] == b[k - a.len()]);
            } else {
                assert((a + b + c)[k] == c[k - a.len() - b.len()]);
            }
        }
    }
}

/// Demote the occurrences at `target_refs`, in turn: each count drops by
/// `DEMOTE_DECAY`, saturating at 0. Returns how many counts changed and the
/// (id, new count) of each change.
pub fn apply_demote(system: &mut DAESystem, target_refs: &Vec<OccurrenceRef>) -> (r: (
    usize,
    Vec<(u128, u32)>,
))
    requires
        old(system).wf(),
        forall|k: int| 0 <= k < target_refs@.len() ==> old(system)@.has_occurrence(#[trigger] target_refs@[k]),
    ensures
        final(system).wf(),
        final(system)@ == demote_all(old(system)@, target_refs@),
        r.1@ == demote_record(old(system)@, target_refs@),
        r.0 == r.1@.len(),
{
    let ghost start = system@;
    let mut demoted: usize = 0;
    let mut record: Vec<(u128, u32)> = Vec::new();
    let mut k: usize = 0;
    assert(target_refs@.take(0) =~= seq![]);
    while k < target_refs.len()
        invariant
            k <= target_refs@.len(),
            forall|j: int| 0 <= j < target_refs@.len() ==> start.has_occurrence(#[trigger] target_refs@[j]),
            system.wf(),
            system@ == demote_all(start, target_refs@.take(k as int)),
            record@ == demote_record(start, target_refs@.take(k as int)),
            demoted == record@.len(),
            demoted <= k,
        decreases target_refs.len() - k,
    {
        let r = target_refs[k];
        proof {
            assert(forall|j: int| 0 <= j < target_refs@.take(k as int).len() ==> #[trigger] target_refs@.take(k as int)[j] == target_refs@[j]);
            lemma_demote_all_layout(start, target_refs@.take(k as int));
            lemma_same_layout_occurrence(start, system@, r);
            assert(target_refs@.take(k + 1).drop_last() == target_refs@.take(k as int));
            assert(target_refs@.take(k + 1).last() == r);
        }
        let occ = system.get_occurrence(r);
        let before = occ.activation_count;
        let id = occ.id;
        let after = before.saturating_sub(DEMOTE_DECAY);
        system.set_activation_count(r, after);
        if after != before {
            record.push((id, after));
            demoted = demoted + 1;
        }
        k = k + 1;
    }
    assert(target_refs@.take(target_refs@.len() as int) == target_refs@);
    (demoted, record)
}

/// A count after one boost: one more, saturating at `u32::MAX`.
pub open spec fn boosted_count(c: u32) -> u32 {
    if c < u32::MAX {
        (c + 1) as u32
    } else {
        c
    }
}

/// `s` after boosting the occurrences at `refs`, in turn.
pub open spec fn boost_all(s: SystemView, refs: Seq<OccurrenceRef>) -> SystemView
    decreases refs.len(),
{
    if refs.len() == 0 {
        s
    } else {
        let m = boost_all(s, refs.drop_last());
        let o = m.occurrence(refs.last());
        m.with_occurrence(refs.last(), o.with_count(boosted_count(o.activation_count)))
    }
}

/// Boosting keeps the layout.
pub proof fn lemma_boost_all_layout(s: SystemView, refs: Seq<OccurrenceRef>)
    requires
        forall|k: int| 0 <= k < refs.len() ==> s.has_occurrence(#[trigger] refs[k]),
    ensures
        same_layout(s, boost_all(s, refs)),
    decreases refs.len(),
{
    if refs.len() == 0 {
        crate::system::lemma_same_layout_refl(s);
    } else {
        lemma_boost_all_layout(s, refs.drop_last());
        let m = boost_all(s, refs.drop_last());
        assert(s.has_occurrence(refs[refs.len() - 1]));
        lemma_same_layout_occurrence(s, m, refs.last());
        lemma_with_count_same_layout(
            m,
            refs.last(),
            boosted_count(m.occurrence(refs.last()).activation_count),
        );
        crate::system::lemma_same_layout_trans(s, m, boost_all(s, refs));
    }
}

/// The ids of the occurrences at `refs`, in turn, as boosting finds them.
pub open spec fn boost_ids(s: SystemView, refs: Seq<OccurrenceRef>) -> Seq<u128>
    decreases refs.len(),
{
    if refs.len() == 0 {
        seq![]
    } else {
        boost_ids(s, refs.drop_last()).push(boost_all(s, refs.drop_last()).occurrence(refs.last()).id)
    }
}

/// Bump the activation of the occurrences at `target_refs` that a boost
/// moved: each count grows by one, saturating at `u32::MAX`. Returns the
/// ids of the bumped occurrences, in turn.
pub fn apply_boost_activation(system: &mut DAESystem, target_refs: &Vec<OccurrenceRef>) -> (r: Vec<u128>)
    requires
        old(system).wf(),
        forall|k: int| 0 <= k < target_refs@.len() ==> old(system)@.has_occurrence(#[trigger] target_refs@[k]),
    ensures
        final(system).wf(),
        final(system)@ == boost_all(old(system)@, target_refs@),
        r@ == boost_ids(old(system)@, target_refs@),
{
    let ghost start = system@;
    let mut ids: Vec<u128> = Vec::new();
    let mut k: usize = 0;
    assert(target_refs@.take(0) =~= seq![]);
    while k < target_refs.len()
        invariant
            k <= target_refs@.len(),
            forall|j: int| 0 <= j < target_refs@.len() ==> start.has_occurrence(#[trigger] target_refs@[j]),
            system.wf(),
            system@ == boost_all(start, target_refs@.take(k as int)),
            ids@ == boost_ids(start, target_refs@.take(k as int)),
        decreases target_refs.len() - k,
    {
        let r = target_refs[k];
        proof {
            assert(forall|j: int| 0 <= j < target_refs@.take(k as int).len() ==> #[trigger] target_refs@.take(k as int)[j] == target_refs@[j]);
            lemma_boost_all_layout(start, target_refs@.take(k as int));
            lemma_same_layout_occurrence(start, system@, r);
            assert(target_refs@.take(k + 1).drop_last() == target_refs@.take(k as int));
            assert(target_refs@.take(k + 1).last() == r);
        }
        let occ = system.get_occurrence(r);
        let before = occ.activation_count;
        let id = occ.id;
        let after = before.saturating_add(1);
        system.set_activation_count(r, after);
        ids.push(id);
        k = k + 1;
    }
    assert(target_refs@.take(target_refs@.len() as int) == target_refs@);
    ids
}

} // verus!
