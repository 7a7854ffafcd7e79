//! Forgetting: removing every occurrence of a word, a subconscious episode,
//! or a conscious memory, together with the neighborhoods and episodes that
//! are left empty.
use vstd::prelude::*;

use crate::episode::{
    all_occs, lemma_all_occs_len, lemma_occurrence_total_nonneg, nbhd_views, occurrence_total, ref_views, Episode,
    EpisodeView,
};
use crate::neighborhood::{occ_views, Neighborhood, NeighborhoodView};
use crate::occurrence::{Occurrence, OccurrenceView};
use crate::stats::episodes_occs;
use crate::system::{
    ep_views, episodes_count, episodes_neighborhoods, lemma_episodes_count_nonneg, lemma_episodes_count_prefix,
    lemma_episodes_neighborhoods_nonneg, DAESystem, NeighborhoodRef, OccurrenceRef, SystemView,
};
use crate::text::{lowercase, str_eq, to_lowercase};

verus! {

/// Which occurrences go.
pub enum EvictionRule {
    /// Those whose word lowercases to this text.
    Word(Seq<char>),
    /// Those activated at most this many times.
    AtMost(u32),
}

/// Which occurrences go, as the library carries it: a lowercase word or an
/// activation floor.
pub enum Eviction {
    Word(String),
    AtMost(u32),
}

impl View for Eviction {
    type V = EvictionRule;

    open spec fn view(&self) -> EvictionRule {
        match self {
            Eviction::Word(w) => EvictionRule::Word(w@),
            Eviction::AtMost(f) => EvictionRule::AtMost(*f),
        }
    }
}

/// Whether `rule` removes the occurrence `o`.
pub open spec fn evicts(rule: EvictionRule, o: OccurrenceView) -> bool {
    match rule {
        EvictionRule::Word(w) => lowercase(o.word) == w,
        EvictionRule::AtMost(f) => o.activation_count <= f,
    }
}

/// Whether `rule` removes `o`.
fn evicts_exec(rule: &Eviction, o: &Occurrence) -> (b: bool)
    ensures
        b == evicts(rule@, o@),
{
    match rule {
        Eviction::Word(w) => {
            let lw = to_lowercase(o.word.as_str());
            str_eq(lw.as_str(), w.as_str())
        },
        Eviction::AtMost(f) => o.activation_count <= *f,
    }
}

/// The occurrences of `os` that `rule` keeps, in order.
pub open spec fn kept_occs(os: Seq<OccurrenceView>, rule: EvictionRule) -> Seq<OccurrenceView>
    decreases os.len(),
{
    if os.len() == 0 {
        seq![]
    } else {
        let prev = kept_occs(os.drop_last(), rule);
        if evicts(rule, os.last()) {
            prev
        } else {
            prev.push(os.last())
        }
    }
}

/// The neighborhoods of `ns` without the occurrences `rule` removes; those
/// left without occurrences are dropped.
pub open spec fn nbhds_without(ns: Seq<NeighborhoodView>, rule: EvictionRule) -> Seq<NeighborhoodView>
    decreases ns.len(),
{
    if ns.len() == 0 {
        seq![]
    } else {
        let prev = nbhds_without(ns.drop_last(), rule);
        let n = NeighborhoodView { occurrences: kept_occs(ns.last().occurrences, rule), ..ns.last() };
        if n.occurrences.len() > 0 {
            prev.push(n)
        } else {
            prev
        }
    }
}

/// An episode without the occurrences `rule` removes, its emptied
/// neighborhoods dropped.
pub open spec fn episode_without(e: EpisodeView, rule: EvictionRule) -> EpisodeView {
    EpisodeView { neighborhoods: nbhds_without(e.neighborhoods, rule), ..e }
}

/// The episodes of `eps` without the occurrences `rule` removes; those left
/// without neighborhoods are dropped.
pub open spec fn episodes_without(eps: Seq<EpisodeView>, rule: EvictionRule) -> Seq<EpisodeView>
    decreases eps.len(),
{
    if eps.len() == 0 {
        seq![]
    } else {
        let prev = episodes_without(eps.drop_last(), rule);
        let e = episode_without(eps.last(), rule);
        if e.neighborhoods.len() > 0 {
            prev.push(e)
        } else {
            prev
        }
    }
}

/// The system without the occurrences `rule` removes: the subconscious episodes
/// lose their emptied neighborhoods and are dropped when left empty; the
/// conscious episode loses its emptied neighborhoods and stays.
pub open spec fn system_without(s: SystemView, rule: EvictionRule) -> SystemView {
    SystemView {
        episodes: episodes_without(s.episodes, rule),
        conscious: episode_without(s.conscious, rule),
        agent_name: s.agent_name,
    }
}

proof fn lemma_kept_occs(os: Seq<OccurrenceView>, rule: EvictionRule)
    ensures
        kept_occs(os, rule).len() <= os.len(),
        forall|i: int| 0 <= i < kept_occs(os, rule).len() ==> !evicts(rule, #[trigger] kept_occs(os, rule)[i]),
    decreases os.len(),
{
    if os.len() > 0 {
        lemma_kept_occs(os.drop_last(), rule);
    }
}

proof fn lemma_nbhds_without(ns: Seq<NeighborhoodView>, rule: EvictionRule)
    ensures
        nbhds_without(ns, rule).len() <= ns.len(),
        occurrence_total(nbhds_without(ns, rule)) <= occurrence_total(ns),
        forall|i: int| 0 <= i < nbhds_without(ns, rule).len() ==> (#[trigger] nbhds_without(ns, rule)[i]).occurrences.len() > 0,
        forall|i: int, j: int|
            0 <= i < nbhds_without(ns, rule).len() && 0 <= j < nbhds_without(ns, rule)[i].occurrences.len()
                ==> !evicts(rule, #[trigger] nbhds_without(ns, rule)[i].occurrences[j]),
    decreases ns.len(),
{
    if ns.len() > 0 {
        let prev = nbhds_without(ns.drop_last(), rule);
        let n = NeighborhoodView { occurrences: kept_occs(ns.last().occurrences, rule), ..ns.last() };
        lemma_nbhds_without(ns.drop_last(), rule);
        lemma_kept_occs(ns.last().occurrences, rule);
        lemma_occurrence_total_nonneg(ns.drop_last());
        if n.occurrences.len() > 0 {
            assert(prev.push(n).drop_last() == prev);
            assert forall|i: int, j: int|
                0 <= i < prev.push(n).len() && 0 <= j < prev.push(n)[i].occurrences.len()
                    implies !evicts(rule, #[trigger] prev.push(n)[i].occurrences[j]) by {
                if i < prev.len() {
                    assert(prev.push(n)[i] == prev[i]);
                }
            }
        }
    }
}

proof fn lemma_episodes_without(eps: Seq<EpisodeView>, rule: EvictionRule)
    ensures
        episodes_without(eps, rule).len() <= eps.len(),
        episodes_count(episodes_without(eps, rule)) <= episodes_count(eps),
        episodes_neighborhoods(episodes_without(eps, rule)) <= episodes_neighborhoods(eps),
        forall|e: int| 0 <= e < episodes_without(eps, rule).len() ==> (#[trigger] episodes_without(eps, rule)[e]).neighborhoods.len() > 0,
        forall|e: int, n: int|
            0 <= e < episodes_without(eps, rule).len() && 0 <= n < episodes_without(eps, rule)[e].neighborhoods.len()
                ==> (#[trigger] episodes_without(eps, rule)[e].neighborhoods[n]).occurrences.len() > 0,
        forall|e: int, n: int, o: int|
            0 <= e < episodes_without(eps, rule).len() && 0 <= n < episodes_without(eps, rule)[e].neighborhoods.len()
                && 0 <= o < episodes_without(eps, rule)[e].neighborhoods[n].occurrences.len()
                ==> !evicts(rule, #[trigger] episodes_without(eps, rule)[e].neighborhoods[n].occurrences[o]),
    decreases eps.len(),
{
    if eps.len() > 0 {
        let prev = episodes_without(eps.drop_last(), rule);
        let last = episode_without(eps.last(), rule);
        lemma_episodes_without(eps.drop_last(), rule);
        lemma_nbhds_without(eps.last().neighborhoods, rule);
        lemma_episodes_count_nonneg(eps.drop_last());
        lemma_episodes_neighborhoods_nonneg(eps.drop_last());
        if last.neighborhoods.len() > 0 {
            assert(prev.push(last).drop_last() == prev);
            assert forall|e: int, n: int|
                0 <= e < prev.push(last).len() && 0 <= n < prev.push(last)[e].neighborhoods.len()
                    implies (#[trigger] prev.push(last)[e].neighborhoods[n]).occurrences.len() > 0 by {
                if e < prev.len() {
                    assert(prev.push(last)[e] == prev[e]);
                }
            }
            assert forall|e: int, n: int, o: int|
                0 <= e < prev.push(last).len() && 0 <= n < prev.push(last)[e].neighborhoods.len()
                    && 0 <= o < prev.push(last)[e].neighborhoods[n].occurrences.len()
                    implies !evicts(rule, #[trigger] prev.push(last)[e].neighborhoods[n].occurrences[o]) by {
                if e < prev.len() {
                    assert(prev.push(last)[e] == prev[e]);
                }
            }
        }
    }
}

/// The occurrences of `os` that `rule` keeps.
fn occs_without(os: &Vec<Occurrence>, rule: &Eviction) -> (r: Vec<Occurrence>)
    ensures
        occ_views(r@) == kept_occs(occ_views(os@), rule@),
{
    let ghost all = occ_views(os@);
    let mut r: Vec<Occurrence> = Vec::new();
    let mut i: usize = 0;
    while i < os.len()
        invariant
            all == occ_views(os@),
            i <= os@.len(),
            occ_views(r@) == kept_occs(all.take(i as int), rule@),
        decreases os.len() - i,
    {
        let o = &os[i];
        proof {
            assert(all.take(i + 1).drop_last() == all.take(i as int));
            assert(all.take(i + 1).last() == o@);
        }
        if !evicts_exec(rule, o) {
            let c = o.clone();
            let ghost before = r@;
            r.push(c);
            assert(occ_views(r@) =~= occ_views(before).push(o@));
        }
        i = i + 1;
    }
    assert(all.take(all.len() as int) == all);
    r
}

/// The neighborhoods of `ns` without the occurrences `rule` removes, the
/// emptied ones dropped.
fn nbhds_without_exec(ns: &Vec<Neighborhood>, rule: &Eviction) -> (r: Vec<Neighborhood>)
    ensures
        nbhd_views(r@) == nbhds_without(nbhd_views(ns@), rule@),
{
    let ghost all = nbhd_views(ns@);
    let mut r: Vec<Neighborhood> = Vec::new();
    let mut i: usize = 0;
    while i < ns.len()
        invariant
            all == nbhd_views(ns@),
            i <= ns@.len(),
            nbhd_views(r@) == nbhds_without(all.take(i as int), rule@),
        decreases ns.len() - i,
    {
        let n = &ns[i];
        proof {
            assert(all.take(i + 1).drop_last() == all.take(i as int));
            assert(all.take(i + 1).last() == n@);
        }
        let occs = occs_without(&n.occurrences, rule);
        if occs.len() > 0 {
            let kept = Neighborhood {
                id: n.id,
                occurrences: occs,
                source_text: n.source_text.clone(),
                neighborhood_type: n.neighborhood_type,
            };
            let ghost before = r@;
            r.push(kept);
            assert(nbhd_views(r@) =~= nbhd_views(before).push(kept@));
        }
        i = i + 1;
    }
    assert(all.take(all.len() as int) == all);
    r
}

/// An episode without the occurrences `rule` removes.
fn episode_without_exec(e: &Episode, rule: &Eviction) -> (r: Episode)
    ensures
        r@ == episode_without(e@, rule@),
{
    Episode {
        id: e.id,
        name: e.name.clone(),
        is_conscious: e.is_conscious,
        timestamp: e.timestamp.clone(),
        neighborhoods: nbhds_without_exec(&e.neighborhoods, rule),
    }
}

/// The episodes of `eps` without the occurrences `rule` removes, the emptied
/// ones dropped.
fn episodes_without_exec(eps: &Vec<Episode>, rule: &Eviction) -> (r: Vec<Episode>)
    ensures
        ep_views(r@) == episodes_without(ep_views(eps@), rule@),
{
    let ghost all = ep_views(eps@);
    let mut r: Vec<Episode> = Vec::new();
    let mut i: usize = 0;
    while i < eps.len()
        invariant
            all == ep_views(eps@),
            i <= eps@.len(),
            ep_views(r@) == episodes_without(all.take(i as int), rule@),
        decreases eps.len() - i,
    {
        let e = &eps[i];
        proof {
            assert(all.take(i + 1).drop_last() == all.take(i as int));
            assert(all.take(i + 1).last() == e@);
        }
        let kept = episode_without_exec(e, rule);
        if kept.neighborhoods.len() > 0 {
            let ghost before = r@;
            r.push(kept);
            assert(ep_views(r@) =~= ep_views(before).push(kept@));
        }
        i = i + 1;
    }
    assert(all.take(all.len() as int) == all);
    r
}

/// Forget a word: remove every occurrence whose word equals `term` ignoring
/// case, then the neighborhoods left without occurrences and the
/// subconscious episodes left without neighborhoods. Returns how many
/// occurrences, neighborhoods and episodes were removed.
pub fn forget_term(system: &mut DAESystem, term: &str) -> (r: (usize, usize, usize))
    requires
        old(system)@.count() <= usize::MAX,
        old(system)@.neighborhood_total() <= usize::MAX,
    ensures
        final(system).wf(),
        final(system)@ == system_without(old(system)@, EvictionRule::Word(lowercase(term@))),
        r.0 == old(system)@.count() - final(system)@.count(),
        r.1 == old(system)@.neighborhood_total() - final(system)@.neighborhood_total(),
        r.2 == old(system)@.episodes.len() - final(system)@.episodes.len(),
{
    let ghost s = system@;
    let rule = Eviction::Word(to_lowercase(term));
    let occurrences_before = system.n();
    let neighborhoods_before = system.total_neighborhoods();
    let episodes_before = system.episodes.len();
    let episodes = episodes_without_exec(&system.episodes, &rule);
    let conscious = episode_without_exec(&system.conscious_episode, &rule);
    system.episodes = episodes;
    system.conscious_episode = conscious;
    system.mark_dirty();
    proof {
        assert(system@ == system_without(s, rule@));
        lemma_episodes_without(s.episodes, rule@);
        lemma_nbhds_without(s.conscious.neighborhoods, rule@);
        lemma_occurrence_total_nonneg(system@.conscious.neighborhoods);
        lemma_episodes_count_nonneg(system@.episodes);
        lemma_episodes_neighborhoods_nonneg(system@.episodes);
    }
    let occurrences_after = system.n();
    let neighborhoods_after = system.total_neighborhoods();
    (
        occurrences_before - occurrences_after,
        neighborhoods_before - neighborhoods_after,
        episodes_before - system.episodes.len(),
    )
}

/// Collect cold memory: remove every subconscious occurrence activated at
/// most `floor` times, then the neighborhoods left without occurrences and
/// the episodes left without neighborhoods. The conscious episode is kept
/// whole. Returns how many occurrences, neighborhoods and episodes were
/// removed.
pub fn collect_cold(system: &mut DAESystem, floor: u32) -> (r: (usize, usize, usize))
    requires
        old(system)@.count() <= usize::MAX,
        old(system)@.neighborhood_total() <= usize::MAX,
    ensures
        final(system).wf(),
        final(system)@ == (SystemView {
            episodes: episodes_without(old(system)@.episodes, EvictionRule::AtMost(floor)),
            ..old(system)@
        }),
        r.0 == old(system)@.count() - final(system)@.count(),
        r.1 == old(system)@.neighborhood_total() - final(system)@.neighborhood_total(),
        r.2 == old(system)@.episodes.len() - final(system)@.episodes.len(),
{
    let ghost s = system@;
    let rule = Eviction::AtMost(floor);
    let occurrences_before = system.n();
    let neighborhoods_before = system.total_neighborhoods();
    let episodes_before = system.episodes.len();
    let episodes = episodes_without_exec(&system.episodes, &rule);
    system.episodes = episodes;
    system.mark_dirty();
    proof {
        lemma_episodes_without(s.episodes, rule@);
        lemma_occurrence_total_nonneg(system@.conscious.neighborhoods);
        lemma_episodes_count_nonneg(system@.episodes);
        lemma_episodes_neighborhoods_nonneg(system@.episodes);
    }
    let occurrences_after = system.n();
    let neighborhoods_after = system.total_neighborhoods();
    (
        occurrences_before - occurrences_after,
        neighborhoods_before - neighborhoods_after,
        episodes_before - system.episodes.len(),
    )
}

/// After occurrences are removed by a rule, no occurrence left is one the
/// rule removes, no neighborhood is left empty, and no subconscious episode
/// is left without neighborhoods.
pub proof fn lemma_evicted_are_gone(s: SystemView, rule: EvictionRule)
    ensures
        forall|r: OccurrenceRef|
            system_without(s, rule).has_occurrence(r) ==> !evicts(rule, #[trigger] system_without(s, rule).occurrence(r)),
        forall|e: int|
            0 <= e < system_without(s, rule).episodes.len() ==> (#[trigger] system_without(
                s,
                rule,
            ).episodes[e]).neighborhoods.len() > 0,
        forall|r: NeighborhoodRef|
            system_without(s, rule).has_neighborhood(r) ==> (#[trigger] system_without(
                s,
                rule,
            ).neighborhood(r)).occurrences.len() > 0,
{
    let t = system_without(s, rule);
    lemma_episodes_without(s.episodes, rule);
    lemma_nbhds_without(s.conscious.neighborhoods, rule);
    assert forall|r: OccurrenceRef| t.has_occurrence(r) implies !evicts(rule, #[trigger] t.occurrence(r)) by {
        if r.episode_idx != usize::MAX {
            assert(t.episode(r.episode_idx) == t.episodes[r.episode_idx as int]);
        }
    }
    assert forall|r: NeighborhoodRef| t.has_neighborhood(r) implies (#[trigger] t.neighborhood(
        r,
    )).occurrences.len() > 0 by {
        if r.episode_idx != usize::MAX {
            assert(t.episode(r.episode_idx) == t.episodes[r.episode_idx as int]);
        }
    }
}

/// Number of occurrences of `os` that `rule` removes.
pub open spec fn evicted_count(os: Seq<OccurrenceView>, rule: EvictionRule) -> nat
    decreases os.len(),
{
    if os.len() == 0 {
        0
    } else {
        evicted_count(os.drop_last(), rule) + if evicts(rule, os.last()) {
            1nat
        } else {
            0nat
        }
    }
}

proof fn lemma_evicted_count_concat(a: Seq<OccurrenceView>, b: Seq<OccurrenceView>, rule: EvictionRule)
    ensures
        evicted_count(a + b, rule) == evicted_count(a, rule) + evicted_count(b, rule),
    decreases b.len(),
{
    if b.len() == 0 {
        assert(a + b == a);
    } else {
        lemma_evicted_count_concat(a, b.drop_last(), rule);
        assert((a + b).drop_last() == a + b.drop_last());
    }
}

proof fn lemma_kept_plus_evicted(os: Seq<OccurrenceView>, rule: EvictionRule)
    ensures
        kept_occs(os, rule).len() + evicted_count(os, rule) == os.len(),
    decreases os.len(),
{
    if os.len() > 0 {
        lemma_kept_plus_evicted(os.drop_last(), rule);
    }
}

proof fn lemma_nbhds_evicted(ns: Seq<NeighborhoodView>, rule: EvictionRule)
    ensures
        occurrence_total(ns) - occurrence_total(nbhds_without(ns, rule)) == evicted_count(all_occs(ns), rule),
    decreases ns.len(),
{
    if ns.len() > 0 {
        let prev = nbhds_without(ns.drop_last(), rule);
        let n = NeighborhoodView { occurrences: kept_occs(ns.last().occurrences, rule), ..ns.last() };
        lemma_nbhds_evicted(ns.drop_last(), rule);
        lemma_kept_plus_evicted(ns.last().occurrences, rule);
        lemma_evicted_count_concat(all_occs(ns.drop_last()), ns.last().occurrences, rule);
        if n.occurrences.len() > 0 {
            assert(prev.push(n).drop_last() == prev);
        }
    }
}

proof fn lemma_episodes_evicted(eps: Seq<EpisodeView>, rule: EvictionRule)
    ensures
        episodes_count(eps) - episodes_count(episodes_without(eps, rule)) == evicted_count(episodes_occs(eps), rule),
    decreases eps.len(),
{
    if eps.len() > 0 {
        let prev = episodes_without(eps.drop_last(), rule);
        let e = episode_without(eps.last(), rule);
        lemma_episodes_evicted(eps.drop_last(), rule);
        lemma_nbhds_evicted(eps.last().neighborhoods, rule);
        lemma_evicted_count_concat(episodes_occs(eps.drop_last()), all_occs(eps.last().neighborhoods), rule);
        if e.neighborhoods.len() > 0 {
            assert(prev.push(e).drop_last() == prev);
        } else {
            assert(occurrence_total(e.neighborhoods) == 0);
        }
    }
}

/// What a collection of cold memory would remove is what it removes: the
/// number of subconscious occurrences activated at most `floor` times is the
/// drop in the number of occurrences that `collect_cold` makes.
pub proof fn lemma_cold_count_is_collected(s: SystemView, floor: u32)
    ensures
        evicted_count(episodes_occs(s.episodes), EvictionRule::AtMost(floor)) == s.count() - (SystemView {
            episodes: episodes_without(s.episodes, EvictionRule::AtMost(floor)),
            ..s
        }).count(),
{
    lemma_episodes_evicted(s.episodes, EvictionRule::AtMost(floor));
}

/// Number of subconscious occurrences activated at most `floor` times: what
/// `collect_cold` would remove.
pub fn cold_count(system: &DAESystem, floor: u32) -> (r: usize)
    requires
        system@.count() <= usize::MAX,
    ensures
        r == evicted_count(episodes_occs(system@.episodes), EvictionRule::AtMost(floor)),
{
    let ghost s = system@;
    let ghost eps = s.episodes;
    let rule = Eviction::AtMost(floor);
    let mut count: usize = 0;
    let mut i: usize = 0;
    proof {
        lemma_episodes_count_prefix(eps, eps.len() as int);
        lemma_occurrence_total_nonneg(s.conscious.neighborhoods);
    }
    while i < system.episodes.len()
        invariant
            s == system@,
            eps == s.episodes,
            i <= eps.len(),
            rule@ == EvictionRule::AtMost(floor),
            episodes_count(eps) <= usize::MAX,
            count == evicted_count(episodes_occs(eps.take(i as int)), rule@),
            count <= episodes_count(eps.take(i as int)),
        decreases system.episodes.len() - i,
    {
        let occs = system.episodes[i].all_occurrences();
        let ghost seen = episodes_occs(eps.take(i as int));
        let ghost rv = ref_views(occs@);
        proof {
            assert(eps[i as int] == system.episodes@[i as int]@);
            assert(eps.take(i + 1).drop_last() == eps.take(i as int));
            assert(eps.take(i + 1).last() == eps[i as int]);
            lemma_episodes_count_prefix(eps, i + 1);
            lemma_all_occs_len(eps[i as int].neighborhoods);
        }
        let mut j: usize = 0;
        while j < occs.len()
            invariant
                i < eps.len(),
                rv == ref_views(occs@),
                rv == all_occs(eps[i as int].neighborhoods),
                j <= occs@.len(),
                episodes_count(eps.take(i as int)) + rv.len() <= usize::MAX,
                rule@ == EvictionRule::AtMost(floor),
                count == evicted_count(seen, rule@) + evicted_count(rv.take(j as int), rule@),
                count <= episodes_count(eps.take(i as int)) + j,
            decreases occs.len() - j,
        {
            proof {
                assert(rv.take(j + 1).drop_last() == rv.take(j as int));
                assert(rv.take(j + 1).last() == occs@[j as int]@);
            }
            if evicts_exec(&rule, occs[j]) {
                count = count + 1;
            }
            j = j + 1;
        }
        proof {
            assert(rv.take(occs@.len() as int) == rv);
            lemma_evicted_count_concat(seen, rv, rule@);
        }
        i = i + 1;
    }
    assert(eps.take(eps.len() as int) == eps);
    count
}

/// Why a memory could not be forgotten.
#[derive(Clone, Copy, Debug, PartialEq, Eq, Structural)]
pub enum ForgetError {
    /// The id names the conscious episode, which cannot be forgotten.
    ConsciousEpisode,
    /// The id names a subconscious neighborhood, not a conscious memory.
    NotConscious,
}

/// The episodes of `eps` whose id is not `id`, in order.
pub open spec fn episodes_other_than(eps: Seq<EpisodeView>, id: u128) -> Seq<EpisodeView>
    decreases eps.len(),
{
    if eps.len() == 0 {
        seq![]
    } else {
        let prev = episodes_other_than(eps.drop_last(), id);
        if eps.last().id == id {
            prev
        } else {
            prev.push(eps.last())
        }
    }
}

/// The neighborhoods of `ns` whose id is not `id`, in order.
pub open spec fn nbhds_other_than(ns: Seq<NeighborhoodView>, id: u128) -> Seq<NeighborhoodView>
    decreases ns.len(),
{
    if ns.len() == 0 {
        seq![]
    } else {
        let prev = nbhds_other_than(ns.drop_last(), id);
        if ns.last().id == id {
            prev
        } else {
            prev.push(ns.last())
        }
    }
}

proof fn lemma_episodes_other_than(eps: Seq<EpisodeView>, id: u128)
    ensures
        episodes_other_than(eps, id).len() <= eps.len(),
        episodes_count(episodes_other_than(eps, id)) <= episodes_count(eps),
        forall|e: int| 0 <= e < episodes_other_than(eps, id).len() ==> (#[trigger] episodes_other_than(eps, id)[e]).id != id,
    decreases eps.len(),
{
    if eps.len() > 0 {
        let prev = episodes_other_than(eps.drop_last(), id);
        lemma_episodes_other_than(eps.drop_last(), id);
        lemma_episodes_count_nonneg(eps.drop_last());
        lemma_occurrence_total_nonneg(eps.last().neighborhoods);
        if eps.last().id != id {
            assert(prev.push(eps.last()).drop_last() == prev);
        }
    }
}

proof fn lemma_nbhds_other_than(ns: Seq<NeighborhoodView>, id: u128)
    ensures
        nbhds_other_than(ns, id).len() <= ns.len(),
        occurrence_total(nbhds_other_than(ns, id)) <= occurrence_total(ns),
        forall|n: int| 0 <= n < nbhds_other_than(ns, id).len() ==> (#[trigger] nbhds_other_than(ns, id)[n]).id != id,
    decreases ns.len(),
{
    if ns.len() > 0 {
        let prev = nbhds_other_than(ns.drop_last(), id);
        lemma_nbhds_other_than(ns.drop_last(), id);
        lemma_occurrence_total_nonneg(ns.drop_last());
        if ns.last().id != id {
            assert(prev.push(ns.last()).drop_last() == prev);
        }
    }
}

/// Remove, in place, the episodes of `eps` whose id is `id`.
fn remove_episodes(eps: &mut Vec<Episode>, id: u128)
    ensures
        ep_views(final(eps)@) == episodes_other_than(ep_views(old(eps)@), id),
{
    let ghost orig = ep_views(eps@);
    let ghost mut k: int = 0;
    let mut i: usize = 0;
    proof {
        assert(orig.take(0) == Seq::<EpisodeView>::empty());
        assert(orig.skip(0) == orig);
    }
    while i < eps.len()
        invariant
            0 <= k <= orig.len(),
            i == episodes_other_than(orig.take(k), id).len(),
            ep_views(eps@) == episodes_other_than(orig.take(k), id) + orig.skip(k),
        decreases eps.len() - i,
    {
        let ghost p = episodes_other_than(orig.take(k), id);
        proof {
            assert(ep_views(eps@).len() == eps@.len());
            assert(k < orig.len());
            assert(ep_views(eps@)[i as int] == orig[k]);
            assert(orig.take(k + 1).drop_last() == orig.take(k));
            assert(orig.take(k + 1).last() == orig[k]);
        }
        if eps[i].id == id {
            let ghost before = eps@;
            eps.remove(i);
            proof {
                assert(eps@ == before.remove(i as int));
                assert forall|j: int| 0 <= j < eps@.len() implies #[trigger] ep_views(eps@)[j] == (p + orig.skip(k + 1))[j] by {
                    if j < i {
                        assert(eps@[j] == before[j]);
                        assert(ep_views(before)[j] == (p + orig.skip(k))[j]);
                    } else {
                        assert(eps@[j] == before[j + 1]);
                        assert(ep_views(before)[j + 1] == (p + orig.skip(k))[j + 1]);
                    }
                }
                assert(ep_views(eps@) =~= p + orig.skip(k + 1));
                k = k + 1;
            }
        } else {
            proof {
                assert(p.push(orig[k]) + orig.skip(k + 1) =~= p + orig.skip(k));
                k = k + 1;
            }
            i = i + 1;
        }
    }
    proof {
        assert(orig.skip(k).len() == 0);
        assert(k == orig.len());
        assert(orig.take(k) == orig);
        assert(ep_views(eps@) =~= episodes_other_than(orig, id));
    }
}

/// Remove, in place, the neighborhoods of `ns` whose id is `id`.
fn remove_nbhds(ns: &mut Vec<Neighborhood>, id: u128)
    ensures
        nbhd_views(final(ns)@) == nbhds_other_than(nbhd_views(old(ns)@), id),
{
    let ghost orig = nbhd_views(ns@);
    let ghost mut k: int = 0;
    let mut i: usize = 0;
    proof {
        assert(orig.take(0) == Seq::<NeighborhoodView>::empty());
        assert(orig.skip(0) == orig);
    }
    while i < ns.len()
        invariant
            0 <= k <= orig.len(),
            i == nbhds_other_than(orig.take(k), id).len(),
            nbhd_views(ns@) == nbhds_other_than(orig.take(k), id) + orig.skip(k),
        decreases ns.len() - i,
    {
        let ghost p = nbhds_other_than(orig.take(k), id);
        proof {
            assert(nbhd_views(ns@).len() == ns@.len());
            assert(k < orig.len());
            assert(nbhd_views(ns@)[i as int] == orig[k]);
            assert(orig.take(k + 1).drop_last() == orig.take(k));
            assert(orig.take(k + 1).last() == orig[k]);
        }
        if ns[i].id == id {
            let ghost before = ns@;
            ns.remove(i);
            proof {
                assert(ns@ == before.remove(i as int));
                assert forall|j: int| 0 <= j < ns@.len() implies #[trigger] nbhd_views(ns@)[j] == (p + orig.skip(k + 1))[j] by {
                    if j < i {
                        assert(ns@[j] == before[j]);
                        assert(nbhd_views(before)[j] == (p + orig.skip(k))[j]);
                    } else {
                        assert(ns@[j] == before[j + 1]);
                        assert(nbhd_views(before)[j + 1] == (p + orig.skip(k))[j + 1]);
                    }
                }
                assert(nbhd_views(ns@) =~= p + orig.skip(k + 1));
                k = k + 1;
            }
        } else {
            proof {
                assert(p.push(orig[k]) + orig.skip(k + 1) =~= p + orig.skip(k));
                k = k + 1;
            }
            i = i + 1;
        }
    }
    proof {
        assert(orig.skip(k).len() == 0);
        assert(k == orig.len());
        assert(orig.take(k) == orig);
        assert(nbhd_views(ns@) =~= nbhds_other_than(orig, id));
    }
}

/// Forget a subconscious episode and everything in it. Returns the number
/// of occurrences removed (0 when no episode has that id); refuses the
/// conscious episode's id.
pub fn forget_episode(system: &mut DAESystem, id: u128) -> (r: Result<usize, ForgetError>)
    requires
        old(system)@.count() <= usize::MAX,
    ensures
        final(system).wf(),
        id == old(system)@.conscious.id ==> r == Err::<usize, ForgetError>(ForgetError::ConsciousEpisode)
            && final(system)@ == old(system)@,
        id != old(system)@.conscious.id ==> final(system)@ == (SystemView {
            episodes: episodes_other_than(old(system)@.episodes, id),
            ..old(system)@
        }) && r == Ok::<usize, ForgetError>((old(system)@.count() - final(system)@.count()) as usize),
{
    if system.conscious_episode.id == id {
        system.mark_dirty();
        return Err(ForgetError::ConsciousEpisode);
    }
    let ghost s = system@;
    let before = system.n();
    remove_episodes(&mut system.episodes, id);
    system.mark_dirty();
    proof {
        assert(system@.episodes == episodes_other_than(s.episodes, id));
        lemma_episodes_other_than(s.episodes, id);
        lemma_episodes_count_nonneg(system@.episodes);
        lemma_occurrence_total_nonneg(s.conscious.neighborhoods);
    }
    let after = system.n();
    Ok(before - after)
}

/// Whether some subconscious neighborhood has id `id`.
pub open spec fn subconscious_has(s: SystemView, id: u128) -> bool {
    exists|e: int, n: int|
        0 <= e < s.episodes.len() && 0 <= n < s.episodes[e].neighborhoods.len() && #[trigger] s.episodes[e].neighborhoods[n].id == id
}

/// Whether some conscious neighborhood has id `id`.
pub open spec fn conscious_has(s: SystemView, id: u128) -> bool {
    exists|n: int| 0 <= n < s.conscious.neighborhoods.len() && #[trigger] s.conscious.neighborhoods[n].id == id
}

/// Whether a neighborhood of `system`'s subconscious episodes has id `id`.
fn in_subconscious(system: &DAESystem, id: u128) -> (b: bool)
    ensures
        b == subconscious_has(system@, id),
{
    let ghost s = system@;
    let mut e: usize = 0;
    while e < system.episodes.len()
        invariant
            s == system@,
            e <= s.episodes.len(),
            forall|a: int, n: int|
                0 <= a < e && 0 <= n < s.episodes[a].neighborhoods.len() ==> #[trigger] s.episodes[a].neighborhoods[n].id != id,
        decreases system.episodes.len() - e,
    {
        let ep = &system.episodes[e];
        assert(s.episodes[e as int] == ep@);
        let mut n: usize = 0;
        while n < ep.neighborhoods.len()
            invariant
                s == system@,
                e < s.episodes.len(),
                s.episodes[e as int] == ep@,
                n <= ep@.neighborhoods.len(),
                forall|m: int| 0 <= m < n ==> #[trigger] s.episodes[e as int].neighborhoods[m].id != id,
            decreases ep.neighborhoods.len() - n,
        {
            assert(ep@.neighborhoods[n as int] == ep.neighborhoods@[n as int]@);
            if ep.neighborhoods[n].id == id {
                assert(s.episodes[e as int].neighborhoods[n as int].id == id);
                return true;
            }
            n = n + 1;
        }
        e = e + 1;
    }
    false
}

/// Whether a neighborhood of `system`'s conscious episode has id `id`.
fn in_conscious(system: &DAESystem, id: u128) -> (b: bool)
    ensures
        b == conscious_has(system@, id),
{
    let c = &system.conscious_episode;
    let mut n: usize = 0;
    while n < c.neighborhoods.len()
        invariant
            c@ == system@.conscious,
            n <= c@.neighborhoods.len(),
            forall|m: int| 0 <= m < n ==> #[trigger] c@.neighborhoods[m].id != id,
        decreases c.neighborhoods.len() - n,
    {
        assert(c@.neighborhoods[n as int] == c.neighborhoods@[n as int]@);
        if c.neighborhoods[n].id == id {
            assert(system@.conscious.neighborhoods[n as int].id == id);
            return true;
        }
        n = n + 1;
    }
    false
}

/// Forget a conscious memory: remove the conscious neighborhoods with id
/// `id`. Returns the number of occurrences removed (0 when no neighborhood
/// has that id); refuses the id of a subconscious neighborhood.
pub fn forget_conscious(system: &mut DAESystem, id: u128) -> (r: Result<usize, ForgetError>)
    requires
        old(system)@.count() <= usize::MAX,
    ensures
        final(system).wf(),
        !conscious_has(old(system)@, id) && subconscious_has(old(system)@, id) ==> r == Err::<
            usize,
            ForgetError,
        >(ForgetError::NotConscious) && final(system)@ == old(system)@,
        conscious_has(old(system)@, id) || !subconscious_has(old(system)@, id) ==> final(system)@ == (
        SystemView {
            conscious: EpisodeView {
                neighborhoods: nbhds_other_than(old(system)@.conscious.neighborhoods, id),
                ..old(system)@.conscious
            },
            ..old(system)@
        }) && r == Ok::<usize, ForgetError>((old(system)@.count() - final(system)@.count()) as usize),
{
    let ghost s = system@;
    if !in_conscious(system, id) && in_subconscious(system, id) {
        system.mark_dirty();
        return Err(ForgetError::NotConscious);
    }
    let before = system.n();
    remove_nbhds(&mut system.conscious_episode.neighborhoods, id);
    system.mark_dirty();
    proof {
        lemma_nbhds_other_than(s.conscious.neighborhoods, id);
        lemma_episodes_count_nonneg(s.episodes);
        lemma_occurrence_total_nonneg(system@.conscious.neighborhoods);
    }
    let after = system.n();
    Ok(before - after)
}

} // verus!
