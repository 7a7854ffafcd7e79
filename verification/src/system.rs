//! The system: the subconscious episodes, the one conscious episode, and the
//! lazily rebuilt indexes that locate words and neighborhoods.
//!
//! An occurrence or a neighborhood is located by its episode index, with
//! `usize::MAX` standing for the conscious episode.
use std::collections::HashMap;
use vstd::prelude::*;

use crate::episode::{occurrence_total, Episode, EpisodeView};
use crate::neighborhood::{
    activated_if, can_activate, lemma_matching_positions, matching_positions, Neighborhood,
    NeighborhoodType, NeighborhoodView,
};
use crate::occurrence::{Occurrence, OccurrenceView};
use crate::text::{lowercase, to_lowercase};
use crate::time::iso8601;
use crate::tokenizer::{tokenize, tokens_of};

verus! {

/// Location of an occurrence: episode, neighborhood and occurrence index.
/// The episode index `usize::MAX` stands for the conscious episode.
#[derive(Clone, Copy, Debug, PartialEq, Eq, Structural, Hash)]
pub struct OccurrenceRef {
    pub episode_idx: usize,
    pub neighborhood_idx: usize,
    pub occurrence_idx: usize,
}

impl OccurrenceRef {
    /// Whether the occurrence lies in the conscious episode.
    pub fn is_conscious(&self) -> (b: bool)
        ensures
            b == (self.episode_idx == usize::MAX),
    {
        self.episode_idx == usize::MAX
    }
}

/// Location of a neighborhood: episode and neighborhood index.
#[derive(Clone, Copy, Debug, PartialEq, Eq, Structural)]
pub struct NeighborhoodRef {
    pub episode_idx: usize,
    pub neighborhood_idx: usize,
}

impl NeighborhoodRef {
    /// Whether the neighborhood lies in the conscious episode.
    pub fn is_conscious(&self) -> (b: bool)
        ensures
            b == (self.episode_idx == usize::MAX),
    {
        self.episode_idx == usize::MAX
    }
}

/// Result of activating a word across both manifolds.
pub struct ActivationResult {
    pub subconscious: Vec<OccurrenceRef>,
    pub conscious: Vec<OccurrenceRef>,
}

/// Abstract value of the system (its indexes are a cache of it).
pub struct SystemView {
    pub episodes: Seq<EpisodeView>,
    pub conscious: EpisodeView,
    pub agent_name: Seq<char>,
}

/// The views of a sequence of episodes.
pub open spec fn ep_views(v: Seq<Episode>) -> Seq<EpisodeView> {
    v.map_values(|e: Episode| e@)
}

/// Number of occurrences over a sequence of episodes.
pub open spec fn episodes_count(eps: Seq<EpisodeView>) -> int
    decreases eps.len(),
{
    if eps.len() == 0 {
        0
    } else {
        episodes_count(eps.drop_last()) + eps.last().count()
    }
}

/// Number of neighborhoods over a sequence of episodes.
pub open spec fn episodes_neighborhoods(eps: Seq<EpisodeView>) -> int
    decreases eps.len(),
{
    if eps.len() == 0 {
        0
    } else {
        episodes_neighborhoods(eps.drop_last()) + eps.last().neighborhoods.len()
    }
}

/// A neighborhood after activating the words that lowercase to `lw`.
pub open spec fn nbhd_activated(n: NeighborhoodView, lw: Seq<char>) -> NeighborhoodView {
    NeighborhoodView {
        occurrences: n.occurrences.map_values(|o: OccurrenceView| activated_if(o, lw)),
        ..n
    }
}

/// An episode after activating the words that lowercase to `lw`.
pub open spec fn episode_activated(e: EpisodeView, lw: Seq<char>) -> EpisodeView {
    EpisodeView {
        neighborhoods: e.neighborhoods.map_values(|n: NeighborhoodView| nbhd_activated(n, lw)),
        ..e
    }
}

/// Every matching occurrence of every neighborhood of `e` can take one
/// more activation.
pub open spec fn episode_can_activate(e: EpisodeView, lw: Seq<char>) -> bool {
    forall|n: int|
        0 <= n < e.neighborhoods.len() ==> can_activate(
            (#[trigger] e.neighborhoods[n]).occurrences,
            lw,
        )
}

/// The locations of the matching occurrences of neighborhood `n` of episode
/// `e`, in order.
pub open spec fn nbhd_match_refs(e: usize, n: int, nb: NeighborhoodView, lw: Seq<char>) -> Seq<
    OccurrenceRef,
> {
    matching_positions(nb.occurrences, lw).map_values(
        |o: usize| OccurrenceRef { episode_idx: e, neighborhood_idx: n as usize, occurrence_idx: o },
    )
}

/// The locations of the matching occurrences of the neighborhoods `ns` of
/// episode `e`, neighborhood by neighborhood.
pub open spec fn episode_match_refs(e: usize, ns: Seq<NeighborhoodView>, lw: Seq<char>) -> Seq<
    OccurrenceRef,
>
    decreases ns.len(),
{
    if ns.len() == 0 {
        seq![]
    } else {
        episode_match_refs(e, ns.drop_last(), lw) + nbhd_match_refs(
            e,
            ns.len() - 1,
            ns.last(),
            lw,
        )
    }
}

/// The locations of the matching occurrences of the subconscious episodes,
/// episode by episode.
pub open spec fn subconscious_match_refs(eps: Seq<EpisodeView>, lw: Seq<char>) -> Seq<
    OccurrenceRef,
>
    decreases eps.len(),
{
    if eps.len() == 0 {
        seq![]
    } else {
        subconscious_match_refs(eps.drop_last(), lw) + episode_match_refs(
            (eps.len() - 1) as usize,
            eps.last().neighborhoods,
            lw,
        )
    }
}

/// Ids, in order and with repeats, of the neighborhoods of `ns` that hold a
/// word lowercasing to `lw`.
pub open spec fn nbhds_match_ids(ns: Seq<NeighborhoodView>, lw: Seq<char>) -> Seq<u128>
    decreases ns.len(),
{
    if ns.len() == 0 {
        seq![]
    } else if matching_positions(ns.last().occurrences, lw).len() > 0 {
        nbhds_match_ids(ns.drop_last(), lw).push(ns.last().id)
    } else {
        nbhds_match_ids(ns.drop_last(), lw)
    }
}

/// Ids, in order and with repeats, of the neighborhoods of the episodes
/// `eps` that hold a word lowercasing to `lw`.
pub open spec fn episodes_match_ids(eps: Seq<EpisodeView>, lw: Seq<char>) -> Seq<u128>
    decreases eps.len(),
{
    if eps.len() == 0 {
        seq![]
    } else {
        episodes_match_ids(eps.drop_last(), lw) + nbhds_match_ids(eps.last().neighborhoods, lw)
    }
}

/// Map from neighborhood id to location after registering the neighborhoods
/// `ns` of episode `e` in order over `m` (a later one wins).
pub open spec fn register_neighborhoods(
    m: Map<u128, NeighborhoodRef>,
    ns: Seq<NeighborhoodView>,
    e: usize,
) -> Map<u128, NeighborhoodRef>
    decreases ns.len(),
{
    if ns.len() == 0 {
        m
    } else {
        register_neighborhoods(m, ns.drop_last(), e).insert(
            ns.last().id,
            NeighborhoodRef { episode_idx: e, neighborhood_idx: (ns.len() - 1) as usize },
        )
    }
}

/// Map from neighborhood id to location over the episodes `eps`, in order.
pub open spec fn register_episodes(eps: Seq<EpisodeView>) -> Map<u128, NeighborhoodRef>
    decreases eps.len(),
{
    if eps.len() == 0 {
        Map::empty()
    } else {
        register_neighborhoods(
            register_episodes(eps.drop_last()),
            eps.last().neighborhoods,
            (eps.len() - 1) as usize,
        )
    }
}

impl SystemView {
    /// The episode at index `e` (`usize::MAX`: the conscious one).
    pub open spec fn episode(self, e: usize) -> EpisodeView {
        if e == usize::MAX {
            self.conscious
        } else {
            self.episodes[e as int]
        }
    }

    /// Whether `e` names an episode.
    pub open spec fn has_episode(self, e: usize) -> bool {
        e == usize::MAX || e < self.episodes.len()
    }

    /// Whether `r` names a neighborhood.
    pub open spec fn has_neighborhood(self, r: NeighborhoodRef) -> bool {
        self.has_episode(r.episode_idx) && r.neighborhood_idx < self.episode(
            r.episode_idx,
        ).neighborhoods.len()
    }

    /// The neighborhood at `r`.
    pub open spec fn neighborhood(self, r: NeighborhoodRef) -> NeighborhoodView {
        self.episode(r.episode_idx).neighborhoods[r.neighborhood_idx as int]
    }

    /// Whether `r` names an occurrence.
    pub open spec fn has_occurrence(self, r: OccurrenceRef) -> bool {
        &&& self.has_episode(r.episode_idx)
        &&& r.neighborhood_idx < self.episode(r.episode_idx).neighborhoods.len()
        &&& r.occurrence_idx < self.episode(r.episode_idx).neighborhoods[r.neighborhood_idx as int].occurrences.len()
    }

    /// The neighborhood holding the occurrence at `r`.
    pub open spec fn container(self, r: OccurrenceRef) -> NeighborhoodView {
        self.episode(r.episode_idx).neighborhoods[r.neighborhood_idx as int]
    }

    /// The occurrence at `r`.
    pub open spec fn occurrence(self, r: OccurrenceRef) -> OccurrenceView {
        self.container(r).occurrences[r.occurrence_idx as int]
    }

    /// Total occurrence count over both manifolds.
    pub open spec fn count(self) -> int {
        episodes_count(self.episodes) + self.conscious.count()
    }

    /// Total number of neighborhoods over both manifolds.
    pub open spec fn neighborhood_total(self) -> int {
        episodes_neighborhoods(self.episodes) + self.conscious.neighborhoods.len()
    }

    /// The system after activating the words that lowercase to `lw`.
    pub open spec fn activated(self, lw: Seq<char>) -> SystemView {
        SystemView {
            episodes: self.episodes.map_values(|e: EpisodeView| episode_activated(e, lw)),
            conscious: episode_activated(self.conscious, lw),
            agent_name: self.agent_name,
        }
    }

    /// Every occurrence whose word lowercases to `lw` can take one more
    /// activation.
    pub open spec fn can_activate(self, lw: Seq<char>) -> bool {
        &&& forall|e: int|
            0 <= e < self.episodes.len() ==> episode_can_activate(#[trigger] self.episodes[e], lw)
        &&& episode_can_activate(self.conscious, lw)
    }

    /// Locations of the subconscious occurrences whose word lowercases to
    /// `lw`, in index order.
    pub open spec fn subconscious_refs(self, lw: Seq<char>) -> Seq<OccurrenceRef> {
        subconscious_match_refs(self.episodes, lw)
    }

    /// Locations of the conscious occurrences whose word lowercases to `lw`,
    /// in index order.
    pub open spec fn conscious_refs(self, lw: Seq<char>) -> Seq<OccurrenceRef> {
        episode_match_refs(usize::MAX, self.conscious.neighborhoods, lw)
    }

    /// Ids, in index order and with repeats, of the neighborhoods of both
    /// manifolds that hold a word lowercasing to `lw`.
    pub open spec fn word_neighborhood_ids(self, lw: Seq<char>) -> Seq<u128> {
        episodes_match_ids(self.episodes, lw) + nbhds_match_ids(self.conscious.neighborhoods, lw)
    }

    /// Every length in the system fits in a `usize`, as that of a system
    /// held in memory does.
    pub open spec fn bounded(self) -> bool {
        &&& self.episodes.len() <= usize::MAX
        &&& forall|e: int| 0 <= e < self.episodes.len() ==> episode_bounded(#[trigger] self.episodes[e])
        &&& episode_bounded(self.conscious)
    }

    /// Every occurrence can take `k` more activations.
    pub open spec fn headroom(self, k: int) -> bool {
        &&& forall|e: int| 0 <= e < self.episodes.len() ==> episode_headroom(#[trigger] self.episodes[e], k)
        &&& episode_headroom(self.conscious, k)
    }

    /// The system with the occurrence at `r` replaced by `o`.
    pub open spec fn with_occurrence(self, r: OccurrenceRef, o: OccurrenceView) -> SystemView {
        let ep = self.episode(r.episode_idx);
        let nb = ep.neighborhoods[r.neighborhood_idx as int];
        let nb2 = NeighborhoodView {
            occurrences: nb.occurrences.update(r.occurrence_idx as int, o),
            ..nb
        };
        let ep2 = EpisodeView {
            neighborhoods: ep.neighborhoods.update(r.neighborhood_idx as int, nb2),
            ..ep
        };
        if r.episode_idx == usize::MAX {
            SystemView { conscious: ep2, ..self }
        } else {
            SystemView { episodes: self.episodes.update(r.episode_idx as int, ep2), ..self }
        }
    }

    /// Where each neighborhood id leads; where two neighborhoods share an id,
    /// the later one in index order (subconscious episodes first, then the
    /// conscious one).
    pub open spec fn neighborhood_locations(self) -> Map<u128, NeighborhoodRef> {
        register_neighborhoods(
            register_episodes(self.episodes),
            self.conscious.neighborhoods,
            usize::MAX,
        )
    }
}

/// The lazily rebuilt indexes of a system: the lowercased words of every
/// occurrence, and the location of every neighborhood by its id.
pub struct SystemIndex {
    /// Lowercased words of each subconscious episode, by neighborhood and
    /// occurrence.
    word_index: Vec<Vec<Vec<String>>>,
    /// Lowercased words of the conscious episode.
    conscious_word_index: Vec<Vec<String>>,
    /// Location of each neighborhood by its id.
    neighborhood_index: HashMap<u128, NeighborhoodRef>,
    /// The indexes must be rebuilt before their next use.
    dirty: bool,
}

/// Top-level container: the subconscious episodes, the conscious episode and
/// lazily rebuilt indexes.
pub struct DAESystem {
    pub episodes: Vec<Episode>,
    pub conscious_episode: Episode,
    pub agent_name: String,
    pub index: SystemIndex,
}

impl View for DAESystem {
    type V = SystemView;

    open spec fn view(&self) -> SystemView {
        SystemView {
            episodes: ep_views(self.episodes@),
            conscious: self.conscious_episode@,
            agent_name: self.agent_name@,
        }
    }
}

/// `n` is the neighborhood that adding `text` to the conscious episode as
/// type `t` made, with id `id`: the tokens of `text`, each activated once.
pub open spec fn conscious_entry(n: NeighborhoodView, id: u128, text: Seq<char>, t: NeighborhoodType) -> bool {
    &&& n.id == id
    &&& n.source_text == text
    &&& n.words() == tokens_of(text)
    &&& n.neighborhood_type == t
    &&& n.wf()
    &&& forall|i: int| 0 <= i < n.occurrences.len() ==> (#[trigger] n.occurrences[i]).activation_count == 1
}

/// `ws` holds the lowercase form of each word of `occs`.
pub open spec fn words_lowered(ws: Seq<String>, occs: Seq<OccurrenceView>) -> bool {
    &&& ws.len() == occs.len()
    &&& forall|o: int| 0 <= o < ws.len() ==> (#[trigger] ws[o])@ == lowercase(occs[o].word)
}

/// `cache` holds the lowercased words of every neighborhood of `ep`.
pub open spec fn episode_lowered(cache: Seq<Vec<String>>, ep: EpisodeView) -> bool {
    &&& cache.len() == ep.neighborhoods.len()
    &&& forall|n: int|
        0 <= n < cache.len() ==> words_lowered((#[trigger] cache[n])@, ep.neighborhoods[n].occurrences)
}

impl DAESystem {
    /// The indexes describe the current episodes.
    pub closed spec fn index_valid(&self) -> bool {
        &&& self.index.word_index@.len() == self.episodes@.len()
        &&& forall|e: int|
            0 <= e < self.index.word_index@.len() ==> episode_lowered(
                (#[trigger] self.index.word_index@[e])@,
                self.episodes@[e]@,
            )
        &&& episode_lowered(self.index.conscious_word_index@, self.conscious_episode@)
        &&& self.index.neighborhood_index@ == self@.neighborhood_locations()
    }

    /// Well-formed: unless marked for rebuild, the indexes describe the
    /// current episodes.
    pub closed spec fn wf(&self) -> bool {
        !self.index.dirty ==> self.index_valid()
    }

    /// The indexes are current and describe the episodes.
    pub closed spec fn is_indexed(&self) -> bool {
        !self.index.dirty && self.index_valid()
    }

    /// The lengths of a system held in memory fit in a `usize`.
    pub proof fn lemma_bounded(&self)
        ensures
            self@.bounded(),
    {
        assert forall|e: int| 0 <= e < self@.episodes.len() implies episode_bounded(
            #[trigger] self@.episodes[e],
        ) by {
            let ep = &self.episodes@[e];
            assert(ep.neighborhoods@.len() == ep.neighborhoods.len());
            assert forall|n: int| 0 <= n < ep@.neighborhoods.len() implies (
            #[trigger] ep@.neighborhoods[n]).occurrences.len() <= usize::MAX by {
                assert(ep.neighborhoods@[n].occurrences@.len() == ep.neighborhoods@[n].occurrences.len());
            }
        }
        let c = &self.conscious_episode;
        assert(c.neighborhoods@.len() == c.neighborhoods.len());
        assert forall|n: int| 0 <= n < c@.neighborhoods.len() implies (
        #[trigger] c@.neighborhoods[n]).occurrences.len() <= usize::MAX by {
            assert(c.neighborhoods@[n].occurrences@.len() == c.neighborhoods@[n].occurrences.len());
        }
        assert(self.episodes@.len() == self.episodes.len());
    }

    /// An empty system for the agent `agent_name`.
    pub fn new(agent_name: &str) -> (s: Self)
        ensures
            s.wf(),
            s@.episodes.len() == 0,
            s@.conscious.name == "conscious"@,
            s@.conscious.is_conscious,
            s@.conscious.neighborhoods.len() == 0,
            exists|secs: nat| s@.conscious.timestamp == iso8601(secs),
            s@.agent_name == agent_name@,
    {
        DAESystem {
            episodes: Vec::new(),
            conscious_episode: Episode::new_conscious(),
            agent_name: agent_name.to_owned(),
            index: SystemIndex {
                word_index: Vec::new(),
                conscious_word_index: Vec::new(),
                neighborhood_index: HashMap::new(),
                dirty: true,
            },
        }
    }

    /// Rebuild the indexes from the episodes, unless they are current.
    pub fn rebuild_indexes(&mut self)
        requires
            old(self).wf(),
        ensures
            final(self)@ == old(self)@,
            final(self).is_indexed(),
            final(self).wf(),
    {
        if !self.index.dirty {
            return;
        }
        let ghost eps = self@.episodes;
        let mut word_index: Vec<Vec<Vec<String>>> = Vec::new();
        let mut map: HashMap<u128, NeighborhoodRef> = HashMap::new();
        let mut e: usize = 0;
        while e < self.episodes.len()
            invariant
                eps == self@.episodes,
                e <= eps.len(),
                word_index@.len() == e,
                forall|j: int|
                    0 <= j < e ==> episode_lowered((#[trigger] word_index@[j])@, eps[j]),
                map@ == register_episodes(eps.take(e as int)),
            decreases self.episodes.len() - e,
        {
            assert(eps[e as int] == self.episodes@[e as int]@);
            let ep_index = index_episode(&self.episodes[e], e, &mut map);
            word_index.push(ep_index);
            assert(eps.take(e + 1).drop_last() == eps.take(e as int));
            e = e + 1;
        }
        assert(eps.take(eps.len() as int) == eps);
        let conscious_index = index_episode(&self.conscious_episode, usize::MAX, &mut map);
        self.index = SystemIndex {
            word_index,
            conscious_word_index: conscious_index,
            neighborhood_index: map,
            dirty: false,
        };
        assert forall|j: int| 0 <= j < self.index.word_index@.len() implies episode_lowered(
            (#[trigger] self.index.word_index@[j])@,
            self.episodes@[j]@,
        ) by {
            assert(eps[j] == self.episodes@[j]@);
        }
    }

    /// Activate a word across both manifolds: every occurrence whose word
    /// equals `word` ignoring case gains one activation. Returns their
    /// locations in index order, split by manifold.
    pub fn activate_word(&mut self, word: &str) -> (result: ActivationResult)
        requires
            old(self).wf(),
            old(self)@.can_activate(lowercase(word@)),
        ensures
            final(self).wf(),
            final(self)@ == old(self)@.activated(lowercase(word@)),
            result.subconscious@ == old(self)@.subconscious_refs(lowercase(word@)),
            result.conscious@ == old(self)@.conscious_refs(lowercase(word@)),
    {
        self.rebuild_indexes();
        let ghost old_sys = self@;
        let lw = to_lowercase(word);
        let ghost l = lw@;
        let mut subconscious: Vec<OccurrenceRef> = Vec::new();
        let mut e: usize = 0;
        let n = self.episodes.len();
        while e < n
            invariant
                n == self.episodes@.len(),
                n == old_sys.episodes.len(),
                e <= n,
                l == lw@,
                l == lowercase(word@),
                old_sys.can_activate(l),
                !self.index.dirty,
                self.index.word_index@.len() == n,
                episode_lowered(self.index.conscious_word_index@, old_sys.conscious),
                self@.conscious == old_sys.conscious,
                self@.agent_name == old_sys.agent_name,
                forall|j: int| e <= j < n ==> #[trigger] self@.episodes[j] == old_sys.episodes[j],
                forall|j: int|
                    0 <= j < e ==> #[trigger] self@.episodes[j] == episode_activated(
                        old_sys.episodes[j],
                        l,
                    ),
                old_sys.neighborhood_locations() == self.index.neighborhood_index@,
                forall|j: int|
                    0 <= j < n ==> episode_lowered(
                        (#[trigger] self.index.word_index@[j])@,
                        old_sys.episodes[j],
                    ),
                subconscious@ == subconscious_match_refs(old_sys.episodes.take(e as int), l),
            decreases n - e,
        {
            assert(self@.episodes[e as int] == self.episodes@[e as int]@);
            let ghost before_vec = self.episodes@;
            let ghost before_view = self@.episodes;
            activate_episode(
                &mut self.episodes[e],
                &self.index.word_index[e as usize],
                e,
                lw.as_str(),
                &mut subconscious,
            );
            proof {
                assert(self.episodes@ == before_vec.update(e as int, self.episodes@[e as int]));
                assert forall|j: int| 0 <= j < n implies #[trigger] self@.episodes[j] == if j == e {
                    episode_activated(old_sys.episodes[j], l)
                } else {
                    before_view[j]
                } by {
                    assert(self@.episodes[j] == self.episodes@[j]@);
                    assert(before_view[j] == before_vec[j]@);
                }
            }
            assert(old_sys.episodes.take(e + 1).drop_last() == old_sys.episodes.take(e as int));
            e = e + 1;
        }
        assert forall|j: int| 0 <= j < n implies #[trigger] self@.episodes[j]
            == old_sys.activated(l).episodes[j] by {
            assert(self@.episodes[j] == episode_activated(old_sys.episodes[j], l));
        }
        assert(self@.episodes =~= old_sys.activated(l).episodes);
        let ghost after_loop = self@.episodes;
        let mut conscious: Vec<OccurrenceRef> = Vec::new();
        activate_episode(
            &mut self.conscious_episode,
            &self.index.conscious_word_index,
            usize::MAX,
            lw.as_str(),
            &mut conscious,
        );
        proof {
            assert(old_sys.episodes.take(n as int) == old_sys.episodes);
            assert(self@.episodes == after_loop);
            lemma_activation_keeps_locations(old_sys, l);
            assert forall|j: int| 0 <= j < self.index.word_index@.len() implies episode_lowered(
                (#[trigger] self.index.word_index@[j])@,
                self.episodes@[j]@,
            ) by {
                lemma_activation_keeps_lowered(self.index.word_index@[j]@, old_sys.episodes[j], l);
                assert(self.episodes@[j]@ == self@.episodes[j]);
            }
            lemma_activation_keeps_lowered(
                self.index.conscious_word_index@,
                old_sys.conscious,
                l,
            );
        }
        ActivationResult { subconscious, conscious }
    }

    /// The locations of the occurrences whose word equals `word` ignoring
    /// case, in index order (subconscious episodes first); nothing is
    /// activated.
    pub fn get_word_occurrences(&mut self, word: &str) -> (refs: Vec<OccurrenceRef>)
        requires
            old(self).wf(),
        ensures
            final(self).wf(),
            final(self)@ == old(self)@,
            refs@ == old(self)@.subconscious_refs(lowercase(word@)) + old(self)@.conscious_refs(
                lowercase(word@),
            ),
    {
        self.rebuild_indexes();
        let lw = to_lowercase(word);
        let ghost eps = self@.episodes;
        let mut refs: Vec<OccurrenceRef> = Vec::new();
        let mut e: usize = 0;
        while e < self.episodes.len()
            invariant
                eps == self@.episodes,
                e <= eps.len(),
                self.is_indexed(),
                refs@ == subconscious_match_refs(eps.take(e as int), lw@),
            decreases self.episodes.len() - e,
        {
            assert(eps[e as int] == self.episodes@[e as int]@);
            assert(episode_lowered(self.index.word_index@[e as int]@, eps[e as int]));
            collect_episode_refs(&self.episodes[e], &self.index.word_index[e], e, lw.as_str(), &mut refs);
            assert(eps.take(e + 1).drop_last() == eps.take(e as int));
            e = e + 1;
        }
        assert(eps.take(eps.len() as int) == eps);
        collect_episode_refs(
            &self.conscious_episode,
            &self.index.conscious_word_index,
            usize::MAX,
            lw.as_str(),
            &mut refs,
        );
        refs
    }

    /// Number of distinct neighborhood ids among the neighborhoods, of
    /// either manifold, that hold the word `word` ignoring case. Its
    /// reciprocal is the word's IDF weight.
    pub fn word_neighborhood_count(&mut self, word: &str) -> (c: usize)
        requires
            old(self).wf(),
        ensures
            final(self).wf(),
            final(self)@ == old(self)@,
            c == old(self)@.word_neighborhood_ids(lowercase(word@)).to_set().len(),
    {
        self.rebuild_indexes();
        let lw = to_lowercase(word);
        let ghost eps = self@.episodes;
        let mut ids: Vec<u128> = Vec::new();
        let mut e: usize = 0;
        while e < self.episodes.len()
            invariant
                eps == self@.episodes,
                e <= eps.len(),
                self.is_indexed(),
                ids@.no_duplicates(),
                ids@.to_set() == episodes_match_ids(eps.take(e as int), lw@).to_set(),
            decreases self.episodes.len() - e,
        {
            assert(eps[e as int] == self.episodes@[e as int]@);
            assert(episode_lowered(self.index.word_index@[e as int]@, eps[e as int]));
            collect_episode_ids(&self.episodes[e], &self.index.word_index[e], lw.as_str(), &mut ids);
            proof {
                assert(eps.take(e + 1).drop_last() == eps.take(e as int));
                vstd::seq_lib::seq_to_set_distributes_over_add(
                    episodes_match_ids(eps.take(e as int), lw@),
                    nbhds_match_ids(eps[e as int].neighborhoods, lw@),
                );
            }
            e = e + 1;
        }
        assert(eps.take(eps.len() as int) == eps);
        collect_episode_ids(
            &self.conscious_episode,
            &self.index.conscious_word_index,
            lw.as_str(),
            &mut ids,
        );
        proof {
            vstd::seq_lib::seq_to_set_distributes_over_add(
                episodes_match_ids(eps, lw@),
                nbhds_match_ids(self@.conscious.neighborhoods, lw@),
            );
            ids@.unique_seq_to_set();
        }
        ids.len()
    }

    /// Where the neighborhood with id `id` is; where two share an id, the
    /// later one in index order.
    pub fn get_neighborhood_ref(&mut self, id: u128) -> (r: Option<NeighborhoodRef>)
        requires
            old(self).wf(),
        ensures
            final(self).wf(),
            final(self)@ == old(self)@,
            r == if old(self)@.neighborhood_locations().contains_key(id) {
                Some(old(self)@.neighborhood_locations()[id])
            } else {
                None::<NeighborhoodRef>
            },
    {
        self.rebuild_indexes();
        match self.index.neighborhood_index.get(&id) {
            Some(r) => Some(*r),
            None => None,
        }
    }

    /// The index of the episode that holds the neighborhood with id `id`
    /// (`usize::MAX`: the conscious one).
    pub fn get_episode_idx_for_neighborhood(&mut self, neighborhood_id: u128) -> (r: Option<usize>)
        requires
            old(self).wf(),
        ensures
            final(self).wf(),
            final(self)@ == old(self)@,
            r == if old(self)@.neighborhood_locations().contains_key(neighborhood_id) {
                Some(old(self)@.neighborhood_locations()[neighborhood_id].episode_idx)
            } else {
                None::<usize>
            },
    {
        match self.get_neighborhood_ref(neighborhood_id) {
            Some(r) => Some(r.episode_idx),
            None => None,
        }
    }

    /// Add text to the conscious episode: one neighborhood of its tokens,
    /// every occurrence activated once. Returns the new neighborhood's id.
    pub fn add_to_conscious(&mut self, text: &str) -> (id: u128)
        ensures
            final(self).wf(),
            final(self)@.episodes == old(self)@.episodes,
            final(self)@.agent_name == old(self)@.agent_name,
            final(self)@.conscious == (EpisodeView {
                neighborhoods: old(self)@.conscious.neighborhoods.push(
                    final(self)@.conscious.neighborhoods.last(),
                ),
                ..old(self)@.conscious
            }),
            conscious_entry(
                final(self)@.conscious.neighborhoods.last(),
                id,
                text@,
                NeighborhoodType::Memory,
            ),
    {
        self.add_to_conscious_typed(text, NeighborhoodType::Memory)
    }

    /// Add text to the conscious episode as a neighborhood of type
    /// `neighborhood_type`, every occurrence activated once. Returns the new
    /// neighborhood's id.
    pub fn add_to_conscious_typed(&mut self, text: &str, neighborhood_type: NeighborhoodType) -> (id:
        u128)
        ensures
            final(self).wf(),
            final(self)@.episodes == old(self)@.episodes,
            final(self)@.agent_name == old(self)@.agent_name,
            final(self)@.conscious == (EpisodeView {
                neighborhoods: old(self)@.conscious.neighborhoods.push(
                    final(self)@.conscious.neighborhoods.last(),
                ),
                ..old(self)@.conscious
            }),
            conscious_entry(final(self)@.conscious.neighborhoods.last(), id, text@, neighborhood_type),
    {
        let tokens = tokenize(text);
        let mut nb = Neighborhood::from_tokens(&tokens, text);
        let ghost fresh = nb@;
        let len = nb.occurrences.len();
        let mut i: usize = 0;
        while i < len
            invariant
                len == fresh.occurrences.len(),
                i <= nb@.occurrences.len(),
                nb@.occurrences.len() == fresh.occurrences.len(),
                nb@.id == fresh.id,
                nb@.source_text == fresh.source_text,
                nb@.neighborhood_type == fresh.neighborhood_type,
                forall|j: int|
                    0 <= j < fresh.occurrences.len() ==> (#[trigger] fresh.occurrences[j]).activation_count
                        == 0,
                forall|j: int|
                    0 <= j < i ==> #[trigger] nb@.occurrences[j] == fresh.occurrences[j].with_count(1),
                forall|j: int|
                    i <= j < nb@.occurrences.len() ==> #[trigger] nb@.occurrences[j]
                        == fresh.occurrences[j],
            decreases len - i,
        {
            nb.set_activation_count(i, 1);
            i = i + 1;
        }
        nb.neighborhood_type = neighborhood_type;
        proof {
            assert forall|j: int| 0 <= j < nb@.occurrences.len() implies (#[trigger] nb@.words()[j])
                == fresh.words()[j] by {
                assert(nb@.occurrences[j] == fresh.occurrences[j].with_count(1));
            }
            assert(nb@.words() =~= fresh.words());
        }
        let id = nb.id;
        self.conscious_episode.add_neighborhood(nb);
        self.index.dirty = true;
        id
    }

    /// Give the occurrence at `r` one more activation.
    pub fn activate_occurrence(&mut self, r: OccurrenceRef)
        requires
            old(self).wf(),
            old(self)@.has_occurrence(r),
            old(self)@.occurrence(r).activation_count < u32::MAX,
        ensures
            final(self).wf(),
            final(self)@ == old(self)@.with_occurrence(
                r,
                old(self)@.occurrence(r).with_count(
                    (old(self)@.occurrence(r).activation_count + 1) as u32,
                ),
            ),
    {
        let c = self.get_occurrence(r).activation_count;
        self.set_activation_count(r, c + 1);
    }

    /// Set the activation count of the occurrence at `r`.
    pub fn set_activation_count(&mut self, r: OccurrenceRef, count: u32)
        requires
            old(self).wf(),
            old(self)@.has_occurrence(r),
        ensures
            final(self).wf(),
            final(self)@ == old(self)@.with_occurrence(r, old(self)@.occurrence(r).with_count(count)),
    {
        let ghost old_sys = self@;
        if r.is_conscious() {
            self.conscious_episode.set_activation_count(r.neighborhood_idx, r.occurrence_idx, count);
            assert(self@ =~= old_sys.with_occurrence(r, old_sys.occurrence(r).with_count(count)));
        } else {
            let ghost before_vec = self.episodes@;
            assert(self.episodes@[r.episode_idx as int]@ == old_sys.episodes[r.episode_idx as int]);
            self.episodes[r.episode_idx].set_activation_count(
                r.neighborhood_idx,
                r.occurrence_idx,
                count,
            );
            proof {
                assert(self.episodes@ == before_vec.update(
                    r.episode_idx as int,
                    self.episodes@[r.episode_idx as int],
                ));
                assert(self@.episodes =~= old_sys.with_occurrence(
                    r,
                    old_sys.occurrence(r).with_count(count),
                ).episodes);
            }
        }
        proof {
            lemma_with_count_same_layout(old_sys, r, count);
            if !self.index.dirty {
                assert(old(self).index_valid());
                lemma_same_layout_keeps_locations(old_sys, self@);
                assert forall|j: int| 0 <= j < self.index.word_index@.len() implies episode_lowered(
                    (#[trigger] self.index.word_index@[j])@,
                    self.episodes@[j]@,
                ) by {
                    assert(self.episodes@[j]@ == self@.episodes[j]);
                    lemma_same_episode_layout_keeps_lowered(
                        self.index.word_index@[j]@,
                        old_sys.episodes[j],
                        self@.episodes[j],
                    );
                }
                lemma_same_episode_layout_keeps_lowered(
                    self.index.conscious_word_index@,
                    old_sys.conscious,
                    self@.conscious,
                );
            }
        }
    }

    /// Total occurrence count across both manifolds.
    pub fn n(&self) -> (c: usize)
        requires
            self@.count() <= usize::MAX,
        ensures
            c == self@.count(),
    {
        let ghost eps = self@.episodes;
        let mut sub: usize = 0;
        let mut i: usize = 0;
        proof {
            lemma_episodes_count_prefix(eps, eps.len() as int);
            crate::episode::lemma_occurrence_total_nonneg(self@.conscious.neighborhoods);
        }
        while i < self.episodes.len()
            invariant
                eps == self@.episodes,
                i <= eps.len(),
                sub == episodes_count(eps.take(i as int)),
                episodes_count(eps) + self@.conscious.count() <= usize::MAX,
                self@.conscious.count() >= 0,
            decreases self.episodes.len() - i,
        {
            proof {
                lemma_episodes_count_prefix(eps, i + 1);
                assert(eps.take(i + 1).drop_last() == eps.take(i as int));
                assert(eps[i as int] == self.episodes@[i as int]@);
                crate::episode::lemma_occurrence_total_nonneg(eps[i as int].neighborhoods);
            }
            sub = sub + self.episodes[i].count();
            i = i + 1;
        }
        assert(eps.take(eps.len() as int) == eps);
        sub + self.conscious_episode.count()
    }

    /// Total number of neighborhoods across both manifolds.
    pub fn total_neighborhoods(&self) -> (c: usize)
        requires
            self@.neighborhood_total() <= usize::MAX,
        ensures
            c == self@.neighborhood_total(),
    {
        let ghost eps = self@.episodes;
        let mut sub: usize = 0;
        let mut i: usize = 0;
        proof {
            lemma_episodes_neighborhoods_prefix(eps, eps.len() as int);
        }
        while i < self.episodes.len()
            invariant
                eps == self@.episodes,
                i <= eps.len(),
                sub == episodes_neighborhoods(eps.take(i as int)),
                episodes_neighborhoods(eps) + self@.conscious.neighborhoods.len() <= usize::MAX,
            decreases self.episodes.len() - i,
        {
            proof {
                lemma_episodes_neighborhoods_prefix(eps, i + 1);
                assert(eps.take(i + 1).drop_last() == eps.take(i as int));
                assert(eps[i as int] == self.episodes@[i as int]@);
            }
            sub = sub + self.episodes[i].neighborhoods.len();
            i = i + 1;
        }
        assert(eps.take(eps.len() as int) == eps);
        sub + self.conscious_episode.neighborhoods.len()
    }

    /// Add a subconscious episode; the indexes are rebuilt on next use.
    pub fn add_episode(&mut self, episode: Episode)
        ensures
            final(self)@ == (SystemView {
                episodes: old(self)@.episodes.push(episode@),
                ..old(self)@
            }),
            final(self).wf(),
    {
        self.episodes.push(episode);
        self.index.dirty = true;
        assert(ep_views(self.episodes@) =~= old(self)@.episodes.push(episode@));
    }

    /// Mark the indexes as needing a rebuild.
    pub fn mark_dirty(&mut self)
        ensures
            final(self)@ == old(self)@,
            final(self).wf(),
    {
        self.index.dirty = true;
    }

    /// The occurrence at `r`.
    pub fn get_occurrence(&self, r: OccurrenceRef) -> (o: &Occurrence)
        requires
            self@.has_occurrence(r),
        ensures
            o@ == self@.occurrence(r),
    {
        let episode = self.get_episode_for_occurrence(r);
        assert(episode@.neighborhoods[r.neighborhood_idx as int] == episode.neighborhoods@[r.neighborhood_idx as int]@);
        let nb = &episode.neighborhoods[r.neighborhood_idx];
        assert(nb@.occurrences[r.occurrence_idx as int] == nb.occurrences@[r.occurrence_idx as int]@);
        &nb.occurrences[r.occurrence_idx]
    }

    /// The neighborhood at `r`.
    pub fn get_neighborhood(&self, r: NeighborhoodRef) -> (n: &Neighborhood)
        requires
            self@.has_neighborhood(r),
        ensures
            n@ == self@.neighborhood(r),
    {
        let episode = if r.is_conscious() {
            &self.conscious_episode
        } else {
            assert(self@.episodes[r.episode_idx as int] == self.episodes@[r.episode_idx as int]@);
            &self.episodes[r.episode_idx]
        };
        assert(episode@.neighborhoods[r.neighborhood_idx as int] == episode.neighborhoods@[r.neighborhood_idx as int]@);
        &episode.neighborhoods[r.neighborhood_idx]
    }

    /// The neighborhood that holds the occurrence at `r`.
    pub fn get_neighborhood_for_occurrence(&self, r: OccurrenceRef) -> (n: &Neighborhood)
        requires
            self@.has_occurrence(r),
        ensures
            n@ == self@.container(r),
    {
        let episode = self.get_episode_for_occurrence(r);
        assert(episode@.neighborhoods[r.neighborhood_idx as int] == episode.neighborhoods@[r.neighborhood_idx as int]@);
        &episode.neighborhoods[r.neighborhood_idx]
    }

    /// The episode that holds the occurrence at `r`.
    pub fn get_episode_for_occurrence(&self, r: OccurrenceRef) -> (e: &Episode)
        requires
            self@.has_episode(r.episode_idx),
        ensures
            e@ == self@.episode(r.episode_idx),
    {
        if r.is_conscious() {
            &self.conscious_episode
        } else {
            assert(self@.episodes[r.episode_idx as int] == self.episodes@[r.episode_idx as int]@);
            &self.episodes[r.episode_idx]
        }
    }
}

/// Whether every occurrence of `ep` can take `k` more activations.
fn episode_has_headroom(ep: &Episode, k: usize) -> (b: bool)
    ensures
        b == episode_headroom(ep@, k as int),
{
    let ghost e = ep@;
    let mut n: usize = 0;
    while n < ep.neighborhoods.len()
        invariant
            e == ep@,
            n <= e.neighborhoods.len(),
            forall|m: int, o: int|
                0 <= m < n && 0 <= o < e.neighborhoods[m].occurrences.len()
                    ==> #[trigger] e.neighborhoods[m].occurrences[o].activation_count + k <= u32::MAX,
        decreases ep.neighborhoods.len() - n,
    {
        let nb = &ep.neighborhoods[n];
        assert(e.neighborhoods[n as int] == nb@);
        let mut o: usize = 0;
        while o < nb.occurrences.len()
            invariant
                e == ep@,
                n < e.neighborhoods.len(),
                e.neighborhoods[n as int] == nb@,
                o <= nb@.occurrences.len(),
                forall|m: int, x: int|
                    0 <= m < n && 0 <= x < e.neighborhoods[m].occurrences.len()
                        ==> #[trigger] e.neighborhoods[m].occurrences[x].activation_count + k <= u32::MAX,
                forall|x: int|
                    0 <= x < o ==> #[trigger] e.neighborhoods[n as int].occurrences[x].activation_count + k <= u32::MAX,
            decreases nb.occurrences.len() - o,
        {
            let c = nb.occurrences[o].activation_count;
            assert(nb@.occurrences[o as int] == nb.occurrences@[o as int]@);
            if k > (u32::MAX - c) as usize {
                assert(e.neighborhoods[n as int].occurrences[o as int].activation_count + k > u32::MAX);
                return false;
            }
            o = o + 1;
        }
        assert forall|m: int, x: int|
            0 <= m < n + 1 && 0 <= x < e.neighborhoods[m].occurrences.len() implies #[trigger] e.neighborhoods[m].occurrences[x].activation_count
                + k <= u32::MAX by {
            if m == n {
                assert(e.neighborhoods[m].occurrences[x].activation_count + k <= u32::MAX);
            }
        }
        n = n + 1;
    }
    true
}

impl DAESystem {
    /// Whether every occurrence, subconscious and conscious, can take `k`
    /// more activations without its count overflowing.
    pub fn has_headroom(&self, k: usize) -> (b: bool)
        ensures
            b == self@.headroom(k as int),
    {
        let ghost s = self@;
        let mut e: usize = 0;
        while e < self.episodes.len()
            invariant
                s == self@,
                e <= s.episodes.len(),
                forall|a: int| 0 <= a < e ==> episode_headroom(#[trigger] s.episodes[a], k as int),
            decreases self.episodes.len() - e,
        {
            assert(s.episodes[e as int] == self.episodes@[e as int]@);
            if !episode_has_headroom(&self.episodes[e], k) {
                return false;
            }
            e = e + 1;
        }
        episode_has_headroom(&self.conscious_episode, k)
    }
}

/// Index one episode: register its neighborhoods under episode index `e` in
/// `map`, and return the lowercased words of each of its neighborhoods.
fn index_episode(ep: &Episode, e: usize, map: &mut HashMap<u128, NeighborhoodRef>) -> (r: Vec<
    Vec<String>,
>)
    ensures
        episode_lowered(r@, ep@),
        final(map)@ == register_neighborhoods(old(map)@, ep@.neighborhoods, e),
{
    let ghost ns = ep@.neighborhoods;
    let ghost base = map@;
    let mut r: Vec<Vec<String>> = Vec::new();
    let mut n: usize = 0;
    while n < ep.neighborhoods.len()
        invariant
            ns == ep@.neighborhoods,
            n <= ns.len(),
            r@.len() == n,
            forall|k: int|
                0 <= k < n ==> words_lowered((#[trigger] r@[k])@, ns[k].occurrences),
            map@ == register_neighborhoods(base, ns.take(n as int), e),
        decreases ep.neighborhoods.len() - n,
    {
        let nb = &ep.neighborhoods[n];
        assert(ns[n as int] == nb@);
        map.insert(nb.id, NeighborhoodRef { episode_idx: e, neighborhood_idx: n });
        r.push(nb.lowercased_words());
        assert(ns.take(n + 1).drop_last() == ns.take(n as int));
        assert(ns.take(n + 1).last() == nb@);
        n = n + 1;
    }
    assert(ns.take(ns.len() as int) == ns);
    r
}

/// Activate, in `ep` (episode index `e`), the occurrences whose lowercased
/// word in `cache` is `lw`, and append their locations to `out`.
fn activate_episode(
    ep: &mut Episode,
    cache: &Vec<Vec<String>>,
    e: usize,
    lw: &str,
    out: &mut Vec<OccurrenceRef>,
)
    requires
        episode_lowered(cache@, old(ep)@),
        episode_can_activate(old(ep)@, lw@),
    ensures
        final(ep)@ == episode_activated(old(ep)@, lw@),
        final(out)@ == old(out)@ + episode_match_refs(e, old(ep)@.neighborhoods, lw@),
{
    let ghost ns = ep@.neighborhoods;
    let ghost base = out@;
    let mut n: usize = 0;
    let len = ep.neighborhoods.len();
    while n < len
        invariant
            len == ep.neighborhoods@.len(),
            len == ns.len(),
            ns == old(ep)@.neighborhoods,
            n <= len,
            episode_lowered(cache@, old(ep)@),
            episode_can_activate(old(ep)@, lw@),
            ep@.id == old(ep)@.id,
            ep@.name == old(ep)@.name,
            ep@.is_conscious == old(ep)@.is_conscious,
            ep@.timestamp == old(ep)@.timestamp,
            forall|j: int| n <= j < len ==> #[trigger] ep@.neighborhoods[j] == ns[j],
            forall|j: int|
                0 <= j < n ==> #[trigger] ep@.neighborhoods[j] == nbhd_activated(ns[j], lw@),
            out@ == base + episode_match_refs(e, ns.take(n as int), lw@),
        decreases len - n,
    {
        assert(ep@.neighborhoods[n as int] == ep.neighborhoods@[n as int]@);
        assert(words_lowered(cache@[n as int]@, ns[n as int].occurrences));
        assert(can_activate(ns[n as int].occurrences, lw@));
        let ghost before_vec = ep.neighborhoods@;
        let ghost before_view = ep@.neighborhoods;
        let positions = ep.neighborhoods[n].activate_lowered(&cache[n], lw);
        proof {
            assert(ep.neighborhoods@ == before_vec.update(n as int, ep.neighborhoods@[n as int]));
            assert forall|j: int| 0 <= j < len implies #[trigger] ep@.neighborhoods[j] == if j
                == n {
                nbhd_activated(ns[j], lw@)
            } else {
                before_view[j]
            } by {
                assert(ep@.neighborhoods[j] == ep.neighborhoods@[j]@);
                assert(before_view[j] == before_vec[j]@);
            }
        }
        let ghost before = out@;
        let mut k: usize = 0;
        while k < positions.len()
            invariant
                k <= positions@.len(),
                positions@ == matching_positions(ns[n as int].occurrences, lw@),
                out@ == before + nbhd_match_refs(e, n as int, ns[n as int], lw@).take(k as int),
            decreases positions.len() - k,
        {
            out.push(OccurrenceRef { episode_idx: e, neighborhood_idx: n, occurrence_idx: positions[k] });
            assert(nbhd_match_refs(e, n as int, ns[n as int], lw@).take(k + 1) =~= nbhd_match_refs(
                e,
                n as int,
                ns[n as int],
                lw@,
            ).take(k as int).push(
                OccurrenceRef { episode_idx: e, neighborhood_idx: n, occurrence_idx: positions@[k as int] },
            ));
            k = k + 1;
        }
        assert(nbhd_match_refs(e, n as int, ns[n as int], lw@).take(positions@.len() as int)
            == nbhd_match_refs(e, n as int, ns[n as int], lw@));
        assert(ns.take(n + 1).drop_last() == ns.take(n as int));
        assert(ns.take(n + 1).last() == ns[n as int]);
        n = n + 1;
    }
    assert(ns.take(len as int) == ns);
    assert(ep@.neighborhoods =~= ns.map_values(|nb: NeighborhoodView| nbhd_activated(nb, lw@)));
}

/// Append to `out` the locations, in episode `ep` (index `e`), of the
/// occurrences whose lowercased word in `cache` is `lw`.
fn collect_episode_refs(
    ep: &Episode,
    cache: &Vec<Vec<String>>,
    e: usize,
    lw: &str,
    out: &mut Vec<OccurrenceRef>,
)
    requires
        episode_lowered(cache@, ep@),
    ensures
        final(out)@ == old(out)@ + episode_match_refs(e, ep@.neighborhoods, lw@),
{
    let ghost ns = ep@.neighborhoods;
    let ghost base = out@;
    let mut n: usize = 0;
    while n < ep.neighborhoods.len()
        invariant
            ns == ep@.neighborhoods,
            n <= ns.len(),
            episode_lowered(cache@, ep@),
            out@ == base + episode_match_refs(e, ns.take(n as int), lw@),
        decreases ep.neighborhoods.len() - n,
    {
        assert(ns[n as int] == ep.neighborhoods@[n as int]@);
        assert(words_lowered(cache@[n as int]@, ns[n as int].occurrences));
        let positions = ep.neighborhoods[n].positions_lowered(&cache[n], lw);
        let ghost before = out@;
        let mut k: usize = 0;
        while k < positions.len()
            invariant
                k <= positions@.len(),
                n < ns.len(),
                positions@ == matching_positions(ns[n as int].occurrences, lw@),
                out@ == before + nbhd_match_refs(e, n as int, ns[n as int], lw@).take(k as int),
            decreases positions.len() - k,
        {
            out.push(OccurrenceRef { episode_idx: e, neighborhood_idx: n, occurrence_idx: positions[k] });
            assert(nbhd_match_refs(e, n as int, ns[n as int], lw@).take(k + 1) =~= nbhd_match_refs(
                e,
                n as int,
                ns[n as int],
                lw@,
            ).take(k as int).push(
                OccurrenceRef { episode_idx: e, neighborhood_idx: n, occurrence_idx: positions@[k as int] },
            ));
            k = k + 1;
        }
        assert(nbhd_match_refs(e, n as int, ns[n as int], lw@).take(positions@.len() as int)
            == nbhd_match_refs(e, n as int, ns[n as int], lw@));
        assert(ns.take(n + 1).drop_last() == ns.take(n as int));
        assert(ns.take(n + 1).last() == ns[n as int]);
        n = n + 1;
    }
    assert(ns.take(ns.len() as int) == ns);
}

/// Add to `ids`, keeping it free of repeats, the id of every neighborhood of
/// `ep` that holds a word whose lowercased form in `cache` is `lw`.
fn collect_episode_ids(ep: &Episode, cache: &Vec<Vec<String>>, lw: &str, ids: &mut Vec<u128>)
    requires
        episode_lowered(cache@, ep@),
        old(ids)@.no_duplicates(),
    ensures
        final(ids)@.no_duplicates(),
        final(ids)@.to_set() == old(ids)@.to_set() + nbhds_match_ids(ep@.neighborhoods, lw@).to_set(),
{
    let ghost ns = ep@.neighborhoods;
    let ghost base = ids@.to_set();
    let mut n: usize = 0;
    assert(nbhds_match_ids(ns.take(0), lw@).to_set() =~= Set::<u128>::empty());
    assert(base + Set::<u128>::empty() =~= base);
    while n < ep.neighborhoods.len()
        invariant
            ns == ep@.neighborhoods,
            n <= ns.len(),
            episode_lowered(cache@, ep@),
            ids@.no_duplicates(),
            ids@.to_set() == base + nbhds_match_ids(ns.take(n as int), lw@).to_set(),
        decreases ep.neighborhoods.len() - n,
    {
        let nb = &ep.neighborhoods[n];
        assert(ns[n as int] == nb@);
        assert(words_lowered(cache@[n as int]@, ns[n as int].occurrences));
        let positions = nb.positions_lowered(&cache[n], lw);
        let ghost prev = nbhds_match_ids(ns.take(n as int), lw@);
        assert(ns.take(n + 1).drop_last() == ns.take(n as int));
        assert(ns.take(n + 1).last() == nb@);
        if positions.len() > 0 {
            assert(nbhds_match_ids(ns.take(n + 1), lw@) == prev.push(nb.id));
            proof {
                prev.lemma_push_to_set_commute(nb.id);
            }
            let mut found = false;
            let mut k: usize = 0;
            while k < ids.len()
                invariant
                    k <= ids@.len(),
                    found == (exists|j: int| 0 <= j < k && ids@[j] == nb.id),
                decreases ids.len() - k,
            {
                if ids[k] == nb.id {
                    found = true;
                }
                k = k + 1;
            }
            if found {
                assert(ids@.to_set().contains(nb.id));
                assert(ids@.to_set() =~= base + nbhds_match_ids(ns.take(n + 1), lw@).to_set());
            } else {
                let ghost before = ids@;
                ids.push(nb.id);
                proof {
                    assert(!before.contains(nb.id));
                    assert(ids@ == before.push(nb.id));
                    assert forall|a: int, b: int| 0 <= a < ids@.len() && 0 <= b < ids@.len() && a
                        != b implies ids@[a] != ids@[b] by {
                        if a < before.len() && b < before.len() {
                        } else if a < before.len() {
                            assert(before[a] != nb.id);
                        } else {
                            assert(before[b] != nb.id);
                        }
                    }
                    before.lemma_push_to_set_commute(nb.id);
                    assert(ids@.to_set() =~= base + nbhds_match_ids(ns.take(n + 1), lw@).to_set());
                }
            }
        } else {
            assert(nbhds_match_ids(ns.take(n + 1), lw@) == prev);
        }
        n = n + 1;
    }
    assert(ns.take(ns.len() as int) == ns);
}

/// `a` and `b` hold the same occurrences (words and ids) at the same places.
pub open spec fn same_words(a: Seq<OccurrenceView>, b: Seq<OccurrenceView>) -> bool {
    &&& a.len() == b.len()
    &&& forall|i: int| 0 <= i < a.len() ==> (#[trigger] a[i]).word == b[i].word && a[i].id == b[i].id
}

/// `a` and `b` have the same neighborhoods (by id) holding the same words.
pub open spec fn same_episode_layout(a: EpisodeView, b: EpisodeView) -> bool {
    &&& a.neighborhoods.len() == b.neighborhoods.len()
    &&& forall|n: int|
        0 <= n < a.neighborhoods.len() ==> (#[trigger] a.neighborhoods[n]).id
            == b.neighborhoods[n].id && same_words(
            a.neighborhoods[n].occurrences,
            b.neighborhoods[n].occurrences,
        )
}

/// `s` and `t` differ at most in activation counts (and names).
pub open spec fn same_layout(s: SystemView, t: SystemView) -> bool {
    &&& s.episodes.len() == t.episodes.len()
    &&& forall|e: int|
        0 <= e < s.episodes.len() ==> same_episode_layout(#[trigger] s.episodes[e], t.episodes[e])
    &&& same_episode_layout(s.conscious, t.conscious)
}

/// Changing one activation count keeps the layout.
pub proof fn lemma_with_count_same_layout(s: SystemView, r: OccurrenceRef, c: u32)
    requires
        s.has_occurrence(r),
    ensures
        same_layout(s, s.with_occurrence(r, s.occurrence(r).with_count(c))),
{
    let t = s.with_occurrence(r, s.occurrence(r).with_count(c));
    let ep = s.episode(r.episode_idx);
    assert(same_episode_layout(ep, t.episode(r.episode_idx))) by {
        let tn = t.episode(r.episode_idx).neighborhoods;
        assert forall|n: int| 0 <= n < ep.neighborhoods.len() implies (
        #[trigger] ep.neighborhoods[n]).id == tn[n].id && same_words(
            ep.neighborhoods[n].occurrences,
            tn[n].occurrences,
        ) by {
            if n == r.neighborhood_idx {
                assert forall|i: int| 0 <= i < ep.neighborhoods[n].occurrences.len() implies (
                #[trigger] ep.neighborhoods[n].occurrences[i]).word == tn[n].occurrences[i].word
                    && ep.neighborhoods[n].occurrences[i].id == tn[n].occurrences[i].id by {
                }
            }
        }
    }
    assert forall|e: int| 0 <= e < s.episodes.len() implies same_episode_layout(
        #[trigger] s.episodes[e],
        t.episodes[e],
    ) by {
        if e != r.episode_idx {
            assert(t.episodes[e] == s.episodes[e]);
            assert(same_episode_layout(s.episodes[e], s.episodes[e]));
        }
    }
    if r.episode_idx != usize::MAX {
        assert(t.conscious == s.conscious);
    }
}

/// Every system has its own layout.
pub proof fn lemma_same_layout_refl(s: SystemView)
    ensures
        same_layout(s, s),
{
    assert forall|e: int| 0 <= e < s.episodes.len() implies same_episode_layout(
        #[trigger] s.episodes[e],
        s.episodes[e],
    ) by {
        assert forall|n: int| 0 <= n < s.episodes[e].neighborhoods.len() implies same_words(
            (#[trigger] s.episodes[e].neighborhoods[n]).occurrences,
            s.episodes[e].neighborhoods[n].occurrences,
        ) by {}
    }
    assert forall|n: int| 0 <= n < s.conscious.neighborhoods.len() implies same_words(
        (#[trigger] s.conscious.neighborhoods[n]).occurrences,
        s.conscious.neighborhoods[n].occurrences,
    ) by {}
}

/// Keeping the layout is transitive.
pub proof fn lemma_same_layout_trans(s: SystemView, t: SystemView, u: SystemView)
    requires
        same_layout(s, t),
        same_layout(t, u),
    ensures
        same_layout(s, u),
{
    assert forall|e: int| 0 <= e < s.episodes.len() implies same_episode_layout(
        #[trigger] s.episodes[e],
        u.episodes[e],
    ) by {
        lemma_same_episode_layout_trans(s.episodes[e], t.episodes[e], u.episodes[e]);
    }
    lemma_same_episode_layout_trans(s.conscious, t.conscious, u.conscious);
}

proof fn lemma_same_episode_layout_trans(a: EpisodeView, b: EpisodeView, c: EpisodeView)
    requires
        same_episode_layout(a, b),
        same_episode_layout(b, c),
    ensures
        same_episode_layout(a, c),
{
    assert forall|n: int| 0 <= n < a.neighborhoods.len() implies (#[trigger] a.neighborhoods[n]).id
        == c.neighborhoods[n].id && same_words(a.neighborhoods[n].occurrences, c.neighborhoods[n].occurrences) by {
        assert(same_words(a.neighborhoods[n].occurrences, b.neighborhoods[n].occurrences));
        assert(same_words(b.neighborhoods[n].occurrences, c.neighborhoods[n].occurrences));
        assert forall|i: int| 0 <= i < a.neighborhoods[n].occurrences.len() implies (
        #[trigger] a.neighborhoods[n].occurrences[i]).word == c.neighborhoods[n].occurrences[i].word
            && a.neighborhoods[n].occurrences[i].id == c.neighborhoods[n].occurrences[i].id by {
            assert(a.neighborhoods[n].occurrences[i].word == b.neighborhoods[n].occurrences[i].word);
            assert(b.neighborhoods[n].occurrences[i].word == c.neighborhoods[n].occurrences[i].word);
        }
    }
}

/// Across a change that keeps the layout, every location still names an
/// occurrence, with the same word and id.
pub proof fn lemma_same_layout_occurrence(s: SystemView, t: SystemView, r: OccurrenceRef)
    requires
        same_layout(s, t),
        s.has_occurrence(r),
    ensures
        t.has_occurrence(r),
        t.occurrence(r).word == s.occurrence(r).word,
        t.occurrence(r).id == s.occurrence(r).id,
        t.container(r).id == s.container(r).id,
{
    let a = s.episode(r.episode_idx);
    let b = t.episode(r.episode_idx);
    if r.episode_idx != usize::MAX {
        assert(same_episode_layout(s.episodes[r.episode_idx as int], t.episodes[r.episode_idx as int]));
    }
    assert(same_episode_layout(a, b));
    let n = r.neighborhood_idx as int;
    assert(same_words(a.neighborhoods[n].occurrences, b.neighborhoods[n].occurrences));
    assert(a.neighborhoods[n].occurrences[r.occurrence_idx as int].word
        == b.neighborhoods[n].occurrences[r.occurrence_idx as int].word);
}

/// Headroom bounds the count of each occurrence.
pub proof fn lemma_count_bound_from_headroom(s: SystemView, r: OccurrenceRef, k: int)
    requires
        s.headroom(k),
        s.has_occurrence(r),
    ensures
        s.occurrence(r).activation_count + k <= u32::MAX,
{
    let n = r.neighborhood_idx as int;
    let o = r.occurrence_idx as int;
    if r.episode_idx == usize::MAX {
        assert(episode_headroom(s.conscious, k));
        assert(s.conscious.neighborhoods[n].occurrences[o].activation_count + k <= u32::MAX);
    } else {
        let e = r.episode_idx as int;
        assert(episode_headroom(s.episodes[e], k));
        assert(s.episodes[e].neighborhoods[n].occurrences[o].activation_count + k <= u32::MAX);
    }
}

/// Headroom for more activations gives headroom for fewer.
pub proof fn lemma_headroom_mono(s: SystemView, k: int, j: int)
    requires
        s.headroom(k),
        j <= k,
    ensures
        s.headroom(j),
{
    assert forall|e: int| 0 <= e < s.episodes.len() implies episode_headroom(#[trigger] s.episodes[e], j) by {
        assert(episode_headroom(s.episodes[e], k));
    }
}

/// Lowercased words stay valid across a change that keeps the layout.
proof fn lemma_same_episode_layout_keeps_lowered(
    cache: Seq<Vec<String>>,
    a: EpisodeView,
    b: EpisodeView,
)
    requires
        episode_lowered(cache, a),
        same_episode_layout(a, b),
    ensures
        episode_lowered(cache, b),
{
    assert forall|n: int| 0 <= n < cache.len() implies words_lowered(
        (#[trigger] cache[n])@,
        b.neighborhoods[n].occurrences,
    ) by {
        assert(words_lowered(cache[n]@, a.neighborhoods[n].occurrences));
        assert(same_words(a.neighborhoods[n].occurrences, b.neighborhoods[n].occurrences));
        assert forall|o: int| 0 <= o < cache[n]@.len() implies (#[trigger] cache[n]@[o])@
            == lowercase(b.neighborhoods[n].occurrences[o].word) by {
            assert(a.neighborhoods[n].occurrences[o].word == b.neighborhoods[n].occurrences[o].word);
        }
    }
}

proof fn lemma_same_layout_register_neighborhoods(
    m: Map<u128, NeighborhoodRef>,
    a: Seq<NeighborhoodView>,
    b: Seq<NeighborhoodView>,
    e: usize,
)
    requires
        a.len() == b.len(),
        forall|n: int| 0 <= n < a.len() ==> (#[trigger] a[n]).id == b[n].id,
    ensures
        register_neighborhoods(m, a, e) == register_neighborhoods(m, b, e),
    decreases a.len(),
{
    if a.len() > 0 {
        lemma_same_layout_register_neighborhoods(m, a.drop_last(), b.drop_last(), e);
        assert(a.last().id == b.last().id);
    }
}

proof fn lemma_same_layout_register_episodes(a: Seq<EpisodeView>, b: Seq<EpisodeView>)
    requires
        a.len() == b.len(),
        forall|e: int| 0 <= e < a.len() ==> same_episode_layout(#[trigger] a[e], b[e]),
    ensures
        register_episodes(a) == register_episodes(b),
    decreases a.len(),
{
    if a.len() > 0 {
        lemma_same_layout_register_episodes(a.drop_last(), b.drop_last());
        assert(same_episode_layout(a.last(), b.last()));
        lemma_same_layout_register_neighborhoods(
            register_episodes(a.drop_last()),
            a.last().neighborhoods,
            b.last().neighborhoods,
            (a.len() - 1) as usize,
        );
    }
}

/// Neighborhoods are found where they were across a change that keeps the
/// layout.
proof fn lemma_same_layout_keeps_locations(s: SystemView, t: SystemView)
    requires
        same_layout(s, t),
    ensures
        s.neighborhood_locations() == t.neighborhood_locations(),
{
    lemma_same_layout_register_episodes(s.episodes, t.episodes);
    lemma_same_layout_register_neighborhoods(
        register_episodes(s.episodes),
        s.conscious.neighborhoods,
        t.conscious.neighborhoods,
        usize::MAX,
    );
}

/// Every length in the episode fits in a `usize`.
pub open spec fn episode_bounded(ep: EpisodeView) -> bool {
    &&& ep.neighborhoods.len() <= usize::MAX
    &&& forall|n: int|
        0 <= n < ep.neighborhoods.len() ==> (#[trigger] ep.neighborhoods[n]).occurrences.len()
            <= usize::MAX
}

/// The locations that `activate_word` and `get_word_occurrences` report are
/// exactly the occurrences whose word lowercases to `lw`: each listed
/// subconscious location names a matching occurrence of a subconscious
/// episode, each conscious one a matching occurrence of the conscious
/// episode, and every matching occurrence is listed.
pub proof fn lemma_word_refs(s: SystemView, lw: Seq<char>)
    requires
        s.bounded(),
    ensures
        forall|k: int|
            0 <= k < s.subconscious_refs(lw).len() ==> {
                let r = #[trigger] s.subconscious_refs(lw)[k];
                &&& r.episode_idx != usize::MAX
                &&& s.has_occurrence(r)
                &&& lowercase(s.occurrence(r).word) == lw
            },
        forall|k: int|
            0 <= k < s.conscious_refs(lw).len() ==> {
                let r = #[trigger] s.conscious_refs(lw)[k];
                &&& r.episode_idx == usize::MAX
                &&& s.has_occurrence(r)
                &&& lowercase(s.occurrence(r).word) == lw
            },
        forall|r: OccurrenceRef|
            s.has_occurrence(r) && lowercase(#[trigger] s.occurrence(r).word) == lw ==> if r.episode_idx
                == usize::MAX {
                s.conscious_refs(lw).contains(r)
            } else {
                s.subconscious_refs(lw).contains(r)
            },
{
    lemma_subconscious_match_refs(s.episodes, lw);
    lemma_episode_match_refs(usize::MAX, s.conscious.neighborhoods, lw);
    assert forall|r: OccurrenceRef|
        s.has_occurrence(r) && lowercase(#[trigger] s.occurrence(r).word) == lw implies if r.episode_idx
        == usize::MAX {
        s.conscious_refs(lw).contains(r)
    } else {
        s.subconscious_refs(lw).contains(r)
    } by {
        let n = r.neighborhood_idx as int;
        let o = r.occurrence_idx as int;
        if r.episode_idx == usize::MAX {
            assert(lowercase(s.conscious.neighborhoods[n].occurrences[o].word) == lw);
        } else {
            let e = r.episode_idx as int;
            assert(lowercase(s.episodes[e].neighborhoods[n].occurrences[o].word) == lw);
        }
    }
}

proof fn lemma_subconscious_match_refs(eps: Seq<EpisodeView>, lw: Seq<char>)
    requires
        eps.len() <= usize::MAX,
        forall|e: int| 0 <= e < eps.len() ==> episode_bounded(#[trigger] eps[e]),
    ensures
        forall|k: int|
            0 <= k < subconscious_match_refs(eps, lw).len() ==> {
                let r = #[trigger] subconscious_match_refs(eps, lw)[k];
                let ep = eps[r.episode_idx as int];
                &&& r.episode_idx < eps.len()
                &&& r.neighborhood_idx < ep.neighborhoods.len()
                &&& r.occurrence_idx < ep.neighborhoods[r.neighborhood_idx as int].occurrences.len()
                &&& lowercase(
                    ep.neighborhoods[r.neighborhood_idx as int].occurrences[r.occurrence_idx as int].word,
                ) == lw
            },
        forall|e: int, n: int, o: int|
            0 <= e < eps.len() && 0 <= n < eps[e].neighborhoods.len() && 0 <= o
                < eps[e].neighborhoods[n].occurrences.len() && lowercase(
                #[trigger] eps[e].neighborhoods[n].occurrences[o].word,
            ) == lw ==> subconscious_match_refs(eps, lw).contains(
                OccurrenceRef {
                    episode_idx: e as usize,
                    neighborhood_idx: n as usize,
                    occurrence_idx: o as usize,
                },
            ),
    decreases eps.len(),
{
    if eps.len() > 0 {
        let prev = eps.drop_last();
        let le = eps.len() - 1;
        lemma_subconscious_match_refs(prev, lw);
        let last = eps.last();
        assert(episode_bounded(eps[le]));
        lemma_episode_match_refs(le as usize, last.neighborhoods, lw);
        let a = subconscious_match_refs(prev, lw);
        let b = episode_match_refs(le as usize, last.neighborhoods, lw);
        let all = subconscious_match_refs(eps, lw);
        assert(all == a + b);
        assert forall|k: int| 0 <= k < all.len() implies {
            let r = #[trigger] all[k];
            let ep = eps[r.episode_idx as int];
            &&& r.episode_idx < eps.len()
            &&& r.neighborhood_idx < ep.neighborhoods.len()
            &&& r.occurrence_idx < ep.neighborhoods[r.neighborhood_idx as int].occurrences.len()
            &&& lowercase(
                ep.neighborhoods[r.neighborhood_idx as int].occurrences[r.occurrence_idx as int].word,
            ) == lw
        } by {
            if k < a.len() {
                assert(all[k] == a[k]);
                assert(prev[a[k].episode_idx as int] == eps[a[k].episode_idx as int]);
            } else {
                assert(all[k] == b[k - a.len()]);
            }
        }
        assert forall|e: int, n: int, o: int|
            0 <= e < eps.len() && 0 <= n < eps[e].neighborhoods.len() && 0 <= o
                < eps[e].neighborhoods[n].occurrences.len() && lowercase(
                #[trigger] eps[e].neighborhoods[n].occurrences[o].word,
            ) == lw implies all.contains(
            OccurrenceRef {
                episode_idx: e as usize,
                neighborhood_idx: n as usize,
                occurrence_idx: o as usize,
            },
        ) by {
            let target = OccurrenceRef {
                episode_idx: e as usize,
                neighborhood_idx: n as usize,
                occurrence_idx: o as usize,
            };
            if e < le {
                assert(prev[e] == eps[e]);
                assert(lowercase(prev[e].neighborhoods[n].occurrences[o].word) == lw);
                let x = choose|x: int| 0 <= x < a.len() && a[x] == target;
                assert(all[x] == target);
            } else {
                assert(lowercase(last.neighborhoods[n].occurrences[o].word) == lw);
                let x = choose|x: int| 0 <= x < b.len() && b[x] == target;
                assert(all[a.len() + x] == target);
            }
        }
    }
}

/// Every occurrence of `e` can take `k` more activations.
pub open spec fn episode_headroom(e: EpisodeView, k: int) -> bool {
    forall|n: int, o: int|
        0 <= n < e.neighborhoods.len() && 0 <= o < e.neighborhoods[n].occurrences.len()
            ==> #[trigger] e.neighborhoods[n].occurrences[o].activation_count + k <= u32::MAX
}

proof fn lemma_episode_headroom_activate(e: EpisodeView, lw: Seq<char>, k: int)
    requires
        episode_headroom(e, k),
        k >= 1,
    ensures
        episode_can_activate(e, lw),
        episode_headroom(episode_activated(e, lw), k - 1),
        same_episode_layout(e, episode_activated(e, lw)),
{
    let a = episode_activated(e, lw);
    assert forall|n: int| 0 <= n < e.neighborhoods.len() implies can_activate(
        (#[trigger] e.neighborhoods[n]).occurrences,
        lw,
    ) by {
        assert forall|i: int|
            0 <= i < e.neighborhoods[n].occurrences.len() && lowercase(
                #[trigger] e.neighborhoods[n].occurrences[i].word,
            ) == lw implies e.neighborhoods[n].occurrences[i].activation_count < u32::MAX by {
            assert(e.neighborhoods[n].occurrences[i].activation_count + k <= u32::MAX);
        }
    }
    assert forall|n: int, o: int|
        0 <= n < a.neighborhoods.len() && 0 <= o < a.neighborhoods[n].occurrences.len()
            implies #[trigger] a.neighborhoods[n].occurrences[o].activation_count + (k - 1)
            <= u32::MAX by {
        assert(e.neighborhoods[n].occurrences[o].activation_count + k <= u32::MAX);
        assert(a.neighborhoods[n].occurrences[o] == activated_if(e.neighborhoods[n].occurrences[o], lw));
    }
    assert forall|n: int| 0 <= n < e.neighborhoods.len() implies (
    #[trigger] e.neighborhoods[n]).id == a.neighborhoods[n].id && same_words(
        e.neighborhoods[n].occurrences,
        a.neighborhoods[n].occurrences,
    ) by {
        assert forall|i: int| 0 <= i < e.neighborhoods[n].occurrences.len() implies (
        #[trigger] e.neighborhoods[n].occurrences[i]).word == a.neighborhoods[n].occurrences[i].word
            && e.neighborhoods[n].occurrences[i].id == a.neighborhoods[n].occurrences[i].id by {
            assert(a.neighborhoods[n].occurrences[i] == activated_if(e.neighborhoods[n].occurrences[i], lw));
        }
    }
}

/// With `k >= 1` activations of headroom, a word can be activated, the
/// result keeps `k - 1` of headroom and the same layout.
pub proof fn lemma_headroom_activate(s: SystemView, lw: Seq<char>, k: int)
    requires
        s.headroom(k),
        k >= 1,
    ensures
        s.can_activate(lw),
        s.activated(lw).headroom(k - 1),
        same_layout(s, s.activated(lw)),
{
    let a = s.activated(lw);
    assert forall|e: int| 0 <= e < s.episodes.len() implies episode_can_activate(#[trigger] s.episodes[e], lw)
        && episode_headroom(a.episodes[e], k - 1) && same_episode_layout(s.episodes[e], a.episodes[e]) by {
        lemma_episode_headroom_activate(s.episodes[e], lw, k);
    }
    assert forall|e: int| 0 <= e < a.episodes.len() implies episode_headroom(#[trigger] a.episodes[e], k - 1) by {
        lemma_episode_headroom_activate(s.episodes[e], lw, k);
    }
    lemma_episode_headroom_activate(s.conscious, lw, k);
}

/// Positions of a word depend on the words only.
proof fn lemma_same_words_positions(a: Seq<OccurrenceView>, b: Seq<OccurrenceView>, lw: Seq<char>)
    requires
        same_words(a, b),
    ensures
        matching_positions(a, lw) == matching_positions(b, lw),
    decreases a.len(),
{
    if a.len() > 0 {
        assert(same_words(a.drop_last(), b.drop_last())) by {
            assert forall|i: int| 0 <= i < a.drop_last().len() implies (#[trigger] a.drop_last()[i]).word
                == b.drop_last()[i].word && a.drop_last()[i].id == b.drop_last()[i].id by {
                assert(a[i].word == b[i].word);
            }
        }
        lemma_same_words_positions(a.drop_last(), b.drop_last(), lw);
        assert(a.last().word == b[b.len() - 1].word);
    }
}

proof fn lemma_same_layout_episode_refs(
    e: usize,
    a: Seq<NeighborhoodView>,
    b: Seq<NeighborhoodView>,
    lw: Seq<char>,
)
    requires
        a.len() == b.len(),
        forall|n: int|
            0 <= n < a.len() ==> (#[trigger] a[n]).id == b[n].id && same_words(
                a[n].occurrences,
                b[n].occurrences,
            ),
    ensures
        episode_match_refs(e, a, lw) == episode_match_refs(e, b, lw),
        nbhds_match_ids(a, lw) == nbhds_match_ids(b, lw),
    decreases a.len(),
{
    if a.len() > 0 {
        lemma_same_layout_episode_refs(e, a.drop_last(), b.drop_last(), lw);
        assert(a.last() == a[a.len() - 1]);
        lemma_same_words_positions(a.last().occurrences, b.last().occurrences, lw);
    }
}

proof fn lemma_same_layout_subconscious_refs(a: Seq<EpisodeView>, b: Seq<EpisodeView>, lw: Seq<char>)
    requires
        a.len() == b.len(),
        forall|e: int| 0 <= e < a.len() ==> same_episode_layout(#[trigger] a[e], b[e]),
    ensures
        subconscious_match_refs(a, lw) == subconscious_match_refs(b, lw),
        episodes_match_ids(a, lw) == episodes_match_ids(b, lw),
    decreases a.len(),
{
    if a.len() > 0 {
        lemma_same_layout_subconscious_refs(a.drop_last(), b.drop_last(), lw);
        assert(same_episode_layout(a.last(), b.last()));
        lemma_same_layout_episode_refs(
            (a.len() - 1) as usize,
            a.last().neighborhoods,
            b.last().neighborhoods,
            lw,
        );
    }
}

/// Where words are found depends on the layout only, not on activation
/// counts.
pub proof fn lemma_same_layout_refs(s: SystemView, t: SystemView, lw: Seq<char>)
    requires
        same_layout(s, t),
    ensures
        s.subconscious_refs(lw) == t.subconscious_refs(lw),
        s.conscious_refs(lw) == t.conscious_refs(lw),
        s.word_neighborhood_ids(lw) == t.word_neighborhood_ids(lw),
        s.neighborhood_locations() == t.neighborhood_locations(),
{
    lemma_same_layout_subconscious_refs(s.episodes, t.episodes, lw);
    lemma_same_layout_episode_refs(usize::MAX, s.conscious.neighborhoods, t.conscious.neighborhoods, lw);
    lemma_same_layout_keeps_locations(s, t);
}

/// Every location listed for episode `e` names a matching occurrence of
/// `ns`, and every matching occurrence of `ns` is listed.
pub proof fn lemma_episode_match_refs(e: usize, ns: Seq<NeighborhoodView>, lw: Seq<char>)
    requires
        ns.len() <= usize::MAX,
        forall|n: int| 0 <= n < ns.len() ==> (#[trigger] ns[n]).occurrences.len() <= usize::MAX,
    ensures
        forall|k: int|
            0 <= k < episode_match_refs(e, ns, lw).len() ==> {
                let r = #[trigger] episode_match_refs(e, ns, lw)[k];
                &&& r.episode_idx == e
                &&& r.neighborhood_idx < ns.len()
                &&& r.occurrence_idx < ns[r.neighborhood_idx as int].occurrences.len()
                &&& lowercase(
                    ns[r.neighborhood_idx as int].occurrences[r.occurrence_idx as int].word,
                ) == lw
            },
        forall|n: int, o: int|
            0 <= n < ns.len() && 0 <= o < ns[n].occurrences.len() && lowercase(
                #[trigger] ns[n].occurrences[o].word,
            ) == lw ==> episode_match_refs(e, ns, lw).contains(
                OccurrenceRef { episode_idx: e, neighborhood_idx: n as usize, occurrence_idx: o as usize },
            ),
    decreases ns.len(),
{
    if ns.len() > 0 {
        let prev = ns.drop_last();
        lemma_episode_match_refs(e, prev, lw);
        let last = ns.last();
        let ln = ns.len() - 1;
        lemma_matching_positions(last.occurrences, lw);
        let a = episode_match_refs(e, prev, lw);
        let b = nbhd_match_refs(e, ln, last, lw);
        let all = episode_match_refs(e, ns, lw);
        assert(all == a + b);
        assert forall|k: int| 0 <= k < all.len() implies {
            let r = #[trigger] all[k];
            &&& r.episode_idx == e
            &&& r.neighborhood_idx < ns.len()
            &&& r.occurrence_idx < ns[r.neighborhood_idx as int].occurrences.len()
            &&& lowercase(ns[r.neighborhood_idx as int].occurrences[r.occurrence_idx as int].word)
                == lw
        } by {
            if k < a.len() {
                assert(all[k] == a[k]);
                assert(prev[a[k].neighborhood_idx as int] == ns[a[k].neighborhood_idx as int]);
            } else {
                assert(all[k] == b[k - a.len()]);
                let p = matching_positions(last.occurrences, lw)[k - a.len()];
                assert(b[k - a.len()] == OccurrenceRef {
                    episode_idx: e,
                    neighborhood_idx: ln as usize,
                    occurrence_idx: p,
                });
            }
        }
        assert forall|n: int, o: int|
            0 <= n < ns.len() && 0 <= o < ns[n].occurrences.len() && lowercase(
                #[trigger] ns[n].occurrences[o].word,
            ) == lw implies all.contains(
            OccurrenceRef { episode_idx: e, neighborhood_idx: n as usize, occurrence_idx: o as usize },
        ) by {
            let target = OccurrenceRef {
                episode_idx: e,
                neighborhood_idx: n as usize,
                occurrence_idx: o as usize,
            };
            if n < ln {
                assert(prev[n] == ns[n]);
                assert(lowercase(prev[n].occurrences[o].word) == lw);
                let x = choose|x: int| 0 <= x < a.len() && a[x] == target;
                assert(all[x] == target);
            } else {
                let mp = matching_positions(last.occurrences, lw);
                assert(mp.contains(o as usize));
                let x = choose|x: int| 0 <= x < mp.len() && mp[x] == o as usize;
                assert(b[x] == target);
                assert(all[a.len() + x] == target);
            }
        }
    }
}

/// Activation changes counts only, so the lowercased words still fit.
proof fn lemma_activation_keeps_lowered(cache: Seq<Vec<String>>, ep: EpisodeView, lw: Seq<char>)
    requires
        episode_lowered(cache, ep),
    ensures
        episode_lowered(cache, episode_activated(ep, lw)),
{
    let a = episode_activated(ep, lw);
    assert forall|n: int| 0 <= n < cache.len() implies words_lowered(
        (#[trigger] cache[n])@,
        a.neighborhoods[n].occurrences,
    ) by {
        assert(words_lowered(cache[n]@, ep.neighborhoods[n].occurrences));
        assert forall|o: int| 0 <= o < cache[n]@.len() implies (#[trigger] cache[n]@[o])@
            == lowercase(a.neighborhoods[n].occurrences[o].word) by {
            assert(a.neighborhoods[n].occurrences[o] == activated_if(
                ep.neighborhoods[n].occurrences[o],
                lw,
            ));
        }
    }
}

/// Activation keeps ids and shapes, so neighborhoods are found where they
/// were.
proof fn lemma_activation_keeps_locations(s: SystemView, lw: Seq<char>)
    ensures
        s.activated(lw).neighborhood_locations() == s.neighborhood_locations(),
{
    let f = |e: EpisodeView| episode_activated(e, lw);
    lemma_register_episodes_activated(s.episodes, lw);
    lemma_register_neighborhoods_activated(
        register_episodes(s.episodes),
        s.conscious.neighborhoods,
        usize::MAX,
        lw,
    );
}

proof fn lemma_register_neighborhoods_activated(
    m: Map<u128, NeighborhoodRef>,
    ns: Seq<NeighborhoodView>,
    e: usize,
    lw: Seq<char>,
)
    ensures
        register_neighborhoods(
            m,
            ns.map_values(|n: NeighborhoodView| nbhd_activated(n, lw)),
            e,
        ) == register_neighborhoods(m, ns, e),
    decreases ns.len(),
{
    if ns.len() > 0 {
        let a = ns.map_values(|n: NeighborhoodView| nbhd_activated(n, lw));
        assert(a.drop_last() =~= ns.drop_last().map_values(
            |n: NeighborhoodView| nbhd_activated(n, lw),
        ));
        lemma_register_neighborhoods_activated(m, ns.drop_last(), e, lw);
    }
}

proof fn lemma_register_episodes_activated(eps: Seq<EpisodeView>, lw: Seq<char>)
    ensures
        register_episodes(eps.map_values(|e: EpisodeView| episode_activated(e, lw)))
            == register_episodes(eps),
    decreases eps.len(),
{
    if eps.len() > 0 {
        let a = eps.map_values(|e: EpisodeView| episode_activated(e, lw));
        assert(a.drop_last() =~= eps.drop_last().map_values(
            |e: EpisodeView| episode_activated(e, lw),
        ));
        lemma_register_episodes_activated(eps.drop_last(), lw);
        lemma_register_neighborhoods_activated(
            register_episodes(eps.drop_last()),
            eps.last().neighborhoods,
            (eps.len() - 1) as usize,
            lw,
        );
    }
}

/// Prefix counts are bounded by the whole count.
pub proof fn lemma_episodes_count_prefix(eps: Seq<EpisodeView>, k: int)
    requires
        0 <= k <= eps.len(),
    ensures
        0 <= episodes_count(eps.take(k)) <= episodes_count(eps),
    decreases eps.len() - k,
{
    if k < eps.len() {
        lemma_episodes_count_prefix(eps, k + 1);
        assert(eps.take(k + 1).drop_last() == eps.take(k));
        crate::episode::lemma_occurrence_total_nonneg(eps[k].neighborhoods);
    } else {
        assert(eps.take(k) == eps);
    }
    lemma_episodes_count_nonneg(eps.take(k));
}

/// Occurrence counts are never negative.
pub proof fn lemma_episodes_count_nonneg(eps: Seq<EpisodeView>)
    ensures
        episodes_count(eps) >= 0,
    decreases eps.len(),
{
    if eps.len() > 0 {
        lemma_episodes_count_nonneg(eps.drop_last());
        crate::episode::lemma_occurrence_total_nonneg(eps.last().neighborhoods);
    }
}

/// Prefix neighborhood totals are bounded by the whole total.
pub proof fn lemma_episodes_neighborhoods_prefix(eps: Seq<EpisodeView>, k: int)
    requires
        0 <= k <= eps.len(),
    ensures
        0 <= episodes_neighborhoods(eps.take(k)) <= episodes_neighborhoods(eps),
    decreases eps.len() - k,
{
    if k < eps.len() {
        lemma_episodes_neighborhoods_prefix(eps, k + 1);
        assert(eps.take(k + 1).drop_last() == eps.take(k));
    } else {
        assert(eps.take(k) == eps);
    }
    lemma_episodes_neighborhoods_nonneg(eps.take(k));
}

/// Neighborhood totals are never negative.
pub proof fn lemma_episodes_neighborhoods_nonneg(eps: Seq<EpisodeView>)
    ensures
        episodes_neighborhoods(eps) >= 0,
    decreases eps.len(),
{
    if eps.len() > 0 {
        lemma_episodes_neighborhoods_nonneg(eps.drop_last());
    }
}

/// `r` locates a neighborhood of `s` whose id is `id`.
pub open spec fn locates(s: SystemView, id: u128, r: NeighborhoodRef) -> bool {
    s.has_neighborhood(r) && s.neighborhood(r).id == id
}

proof fn lemma_register_neighborhoods_locate(
    s: SystemView,
    m: Map<u128, NeighborhoodRef>,
    e: usize,
    k: int,
)
    requires
        s.has_episode(e),
        0 <= k <= s.episode(e).neighborhoods.len(),
        s.episode(e).neighborhoods.len() <= usize::MAX,
        forall|id: u128| #[trigger] m.contains_key(id) ==> locates(s, id, m[id]),
    ensures
        forall|id: u128| #[trigger]
            register_neighborhoods(m, s.episode(e).neighborhoods.take(k), e).contains_key(id)
                ==> locates(s, id, register_neighborhoods(m, s.episode(e).neighborhoods.take(k), e)[id]),
    decreases k,
{
    if k > 0 {
        let ns = s.episode(e).neighborhoods.take(k);
        assert(ns.drop_last() =~= s.episode(e).neighborhoods.take(k - 1));
        lemma_register_neighborhoods_locate(s, m, e, k - 1);
        let r = NeighborhoodRef { episode_idx: e, neighborhood_idx: (ns.len() - 1) as usize };
        assert(ns.last() == s.episode(e).neighborhoods[k - 1]);
        assert(locates(s, ns.last().id, r));
        let prev = register_neighborhoods(m, s.episode(e).neighborhoods.take(k - 1), e);
        assert(register_neighborhoods(m, ns, e) == prev.insert(ns.last().id, r));
        assert forall|id: u128| #[trigger] register_neighborhoods(m, ns, e).contains_key(id) implies locates(
            s,
            id,
            register_neighborhoods(m, ns, e)[id],
        ) by {
            if id != ns.last().id {
                assert(prev.contains_key(id));
            }
        }
    }
}

proof fn lemma_register_episodes_locate(s: SystemView, j: int)
    requires
        s.bounded(),
        0 <= j <= s.episodes.len(),
    ensures
        forall|id: u128| #[trigger]
            register_episodes(s.episodes.take(j)).contains_key(id) ==> locates(
                s,
                id,
                register_episodes(s.episodes.take(j))[id],
            ),
    decreases j,
{
    if j > 0 {
        let eps = s.episodes.take(j);
        assert(eps.drop_last() =~= s.episodes.take(j - 1));
        lemma_register_episodes_locate(s, j - 1);
        let e = (j - 1) as usize;
        assert(s.episode(e) == eps.last());
        assert(s.episode(e).neighborhoods.take(s.episode(e).neighborhoods.len() as int)
            =~= eps.last().neighborhoods);
        lemma_register_neighborhoods_locate(
            s,
            register_episodes(s.episodes.take(j - 1)),
            e,
            s.episode(e).neighborhoods.len() as int,
        );
    }
}

/// Every neighborhood the system locates by id is there, with that id.
pub proof fn lemma_locations_valid(s: SystemView)
    requires
        s.bounded(),
    ensures
        forall|id: u128| #[trigger]
            s.neighborhood_locations().contains_key(id) ==> locates(s, id, s.neighborhood_locations()[id]),
{
    lemma_register_episodes_locate(s, s.episodes.len() as int);
    assert(s.episodes.take(s.episodes.len() as int) =~= s.episodes);
    let c = s.episode(usize::MAX);
    assert(c.neighborhoods.take(c.neighborhoods.len() as int) =~= s.conscious.neighborhoods);
    lemma_register_neighborhoods_locate(
        s,
        register_episodes(s.episodes),
        usize::MAX,
        c.neighborhoods.len() as int,
    );
}

proof fn lemma_register_neighborhoods_dom(m: Map<u128, NeighborhoodRef>, ns: Seq<NeighborhoodView>, e: usize)
    ensures
        forall|id: u128| m.contains_key(id) ==> #[trigger] register_neighborhoods(m, ns, e).contains_key(id),
        forall|n: int| 0 <= n < ns.len() ==> register_neighborhoods(m, ns, e).contains_key(#[trigger] ns[n].id),
    decreases ns.len(),
{
    if ns.len() > 0 {
        lemma_register_neighborhoods_dom(m, ns.drop_last(), e);
        assert forall|id: u128| m.contains_key(id) implies #[trigger] register_neighborhoods(m, ns, e).contains_key(id) by {
            assert(register_neighborhoods(m, ns.drop_last(), e).contains_key(id));
        }
        assert forall|n: int| 0 <= n < ns.len() implies register_neighborhoods(m, ns, e).contains_key(
            #[trigger] ns[n].id,
        ) by {
            if n < ns.len() - 1 {
                assert(ns.drop_last()[n] == ns[n]);
            }
        }
    }
}

proof fn lemma_register_episodes_dom(eps: Seq<EpisodeView>)
    ensures
        forall|e: int, n: int|
            0 <= e < eps.len() && 0 <= n < eps[e].neighborhoods.len() ==> register_episodes(eps).contains_key(
                #[trigger] eps[e].neighborhoods[n].id,
            ),
    decreases eps.len(),
{
    if eps.len() > 0 {
        let init = eps.drop_last();
        lemma_register_episodes_dom(init);
        lemma_register_neighborhoods_dom(register_episodes(init), eps.last().neighborhoods, (eps.len() - 1) as usize);
        assert forall|e: int, n: int|
            0 <= e < eps.len() && 0 <= n < eps[e].neighborhoods.len() implies register_episodes(eps).contains_key(
                #[trigger] eps[e].neighborhoods[n].id,
            ) by {
            if e < eps.len() - 1 {
                assert(init[e] == eps[e]);
                assert(register_episodes(init).contains_key(init[e].neighborhoods[n].id));
            } else {
                assert(eps.last() == eps[e]);
            }
        }
    }
}

/// What the indexes answer once rebuilt: the word index lists exactly the
/// occurrences whose word lowercases to `lw` (`get_word_occurrences`,
/// `activate_word`), and the neighborhood index finds every neighborhood's
/// id and leads to a neighborhood with that id (`get_neighborhood_ref`).
pub proof fn lemma_indexes_answer(s: SystemView, lw: Seq<char>)
    requires
        s.bounded(),
    ensures
        forall|k: int|
            0 <= k < (s.subconscious_refs(lw) + s.conscious_refs(lw)).len() ==> {
                let r = #[trigger] (s.subconscious_refs(lw) + s.conscious_refs(lw))[k];
                &&& s.has_occurrence(r)
                &&& lowercase(s.occurrence(r).word) == lw
            },
        forall|r: OccurrenceRef|
            s.has_occurrence(r) && lowercase(#[trigger] s.occurrence(r).word) == lw ==> (s.subconscious_refs(lw)
                + s.conscious_refs(lw)).contains(r),
        forall|r: NeighborhoodRef|
            s.has_neighborhood(r) ==> s.neighborhood_locations().contains_key(#[trigger] s.neighborhood(r).id)
                && locates(s, s.neighborhood(r).id, s.neighborhood_locations()[s.neighborhood(r).id]),
{
    lemma_word_refs(s, lw);
    lemma_locations_valid(s);
    let a = s.subconscious_refs(lw);
    let b = s.conscious_refs(lw);
    assert forall|k: int| 0 <= k < (a + b).len() implies {
        let r = #[trigger] (a + b)[k];
        &&& s.has_occurrence(r)
        &&& lowercase(s.occurrence(r).word) == lw
    } by {
        if k < a.len() {
            assert((a + b)[k] == a[k]);
        } else {
            assert((a + b)[k] == b[k - a.len()]);
        }
    }
    assert forall|r: OccurrenceRef| s.has_occurrence(r) && lowercase(#[trigger] s.occurrence(r).word) == lw implies (a
        + b).contains(r) by {
        if r.episode_idx == usize::MAX {
            let k = choose|k: int| 0 <= k < b.len() && b[k] == r;
            assert((a + b)[a.len() + k] == r);
        } else {
            let k = choose|k: int| 0 <= k < a.len() && a[k] == r;
            assert((a + b)[k] == r);
        }
    }
    lemma_register_episodes_dom(s.episodes);
    lemma_register_neighborhoods_dom(register_episodes(s.episodes), s.conscious.neighborhoods, usize::MAX);
    assert forall|r: NeighborhoodRef| s.has_neighborhood(r) implies s.neighborhood_locations().contains_key(
        #[trigger] s.neighborhood(r).id,
    ) && locates(s, s.neighborhood(r).id, s.neighborhood_locations()[s.neighborhood(r).id]) by {
        let id = s.neighborhood(r).id;
        if r.episode_idx == usize::MAX {
            assert(s.conscious.neighborhoods[r.neighborhood_idx as int].id == id);
        } else {
            assert(s.episodes[r.episode_idx as int].neighborhoods[r.neighborhood_idx as int].id == id);
            assert(register_episodes(s.episodes).contains_key(id));
        }
    }
}

} // verus!
