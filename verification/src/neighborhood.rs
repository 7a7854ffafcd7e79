//! Neighborhoods: clusters of word occurrences built from one chunk of text.
use vstd::prelude::*;

use crate::ids::new_id;
use crate::occurrence::{Occurrence, OccurrenceView};
use crate::text::{lowercase, str_eq, strings_view, to_lowercase};

verus! {

/// Classification of a neighborhood's content. Decisions and preferences get
/// special treatment in scoring and composition.
#[derive(Debug, PartialEq, Eq, Structural)]
pub enum NeighborhoodType {
    /// Default: ordinary memory from conversations or documents.
    Memory,
    /// A settled decision that should not be re-litigated.
    Decision,
    /// A user preference that should be respected.
    Preference,
    /// A marked insight.
    Insight,
}

impl Clone for NeighborhoodType {
    fn clone(&self) -> (r: Self)
        ensures
            r == *self,
    {
        match self {
            NeighborhoodType::Memory => NeighborhoodType::Memory,
            NeighborhoodType::Decision => NeighborhoodType::Decision,
            NeighborhoodType::Preference => NeighborhoodType::Preference,
            NeighborhoodType::Insight => NeighborhoodType::Insight,
        }
    }
}

impl Copy for NeighborhoodType {

}

/// The lowercase name of a neighborhood type.
pub open spec fn type_label(t: NeighborhoodType) -> Seq<char> {
    match t {
        NeighborhoodType::Memory => "memory"@,
        NeighborhoodType::Decision => "decision"@,
        NeighborhoodType::Preference => "preference"@,
        NeighborhoodType::Insight => "insight"@,
    }
}

/// The type named by `s`; any other text reads as `Memory`.
pub open spec fn type_from_name(s: Seq<char>) -> NeighborhoodType {
    if s == "decision"@ {
        NeighborhoodType::Decision
    } else if s == "preference"@ {
        NeighborhoodType::Preference
    } else if s == "insight"@ {
        NeighborhoodType::Insight
    } else {
        NeighborhoodType::Memory
    }
}

impl NeighborhoodType {
    /// The default type.
    pub fn default_type() -> (t: Self)
        ensures
            t == NeighborhoodType::Memory,
    {
        NeighborhoodType::Memory
    }

    /// The lowercase name of the type.
    pub fn as_str(&self) -> (s: &'static str)
        ensures
            s@ == type_label(*self),
    {
        match self {
            NeighborhoodType::Memory => "memory",
            NeighborhoodType::Decision => "decision",
            NeighborhoodType::Preference => "preference",
            NeighborhoodType::Insight => "insight",
        }
    }

    /// The type named by `s` (`decision`, `preference`, `insight`); anything
    /// else is `Memory`.
    pub fn from_str_lossy(s: &str) -> (t: Self)
        ensures
            t == type_from_name(s@),
    {
        if str_eq(s, "decision") {
            NeighborhoodType::Decision
        } else if str_eq(s, "preference") {
            NeighborhoodType::Preference
        } else if str_eq(s, "insight") {
            NeighborhoodType::Insight
        } else {
            NeighborhoodType::Memory
        }
    }
}

/// A cluster of word occurrences representing one chunk of text
/// (typically three sentences).
pub struct Neighborhood {
    pub id: u128,
    pub occurrences: Vec<Occurrence>,
    pub source_text: String,
    pub neighborhood_type: NeighborhoodType,
}

/// Abstract value of a neighborhood.
pub struct NeighborhoodView {
    pub id: u128,
    pub occurrences: Seq<OccurrenceView>,
    pub source_text: Seq<char>,
    pub neighborhood_type: NeighborhoodType,
}

/// The views of a sequence of occurrences.
pub open spec fn occ_views(v: Seq<Occurrence>) -> Seq<OccurrenceView> {
    v.map_values(|o: Occurrence| o@)
}

impl View for Neighborhood {
    type V = NeighborhoodView;

    open spec fn view(&self) -> NeighborhoodView {
        NeighborhoodView {
            id: self.id,
            occurrences: occ_views(self.occurrences@),
            source_text: self.source_text@,
            neighborhood_type: self.neighborhood_type,
        }
    }
}

/// Sum of the activation counts of `occs`.
pub open spec fn activation_sum(occs: Seq<OccurrenceView>) -> int
    decreases occs.len(),
{
    if occs.len() == 0 {
        0
    } else {
        activation_sum(occs.drop_last()) + occs.last().activation_count
    }
}

/// Every prefix sum is at most the whole sum, and sums are not negative.
pub proof fn lemma_activation_sum_prefix(occs: Seq<OccurrenceView>, k: int)
    requires
        0 <= k <= occs.len(),
    ensures
        0 <= activation_sum(occs.take(k)) <= activation_sum(occs),
    decreases occs.len() - k,
{
    if k < occs.len() {
        lemma_activation_sum_prefix(occs, k + 1);
        assert(occs.take(k + 1).drop_last() == occs.take(k));
    } else {
        assert(occs.take(k) == occs);
    }
    lemma_activation_sum_nonneg(occs.take(k));
}

/// Activation sums are never negative.
pub proof fn lemma_activation_sum_nonneg(occs: Seq<OccurrenceView>)
    ensures
        activation_sum(occs) >= 0,
    decreases occs.len(),
{
    if occs.len() > 0 {
        lemma_activation_sum_nonneg(occs.drop_last());
    }
}

impl NeighborhoodView {
    /// The words of the occurrences, in order.
    pub open spec fn words(self) -> Seq<Seq<char>> {
        self.occurrences.map_values(|o: OccurrenceView| o.word)
    }

    /// Every occurrence records this neighborhood as its container.
    pub open spec fn wf(self) -> bool {
        forall|i: int|
            0 <= i < self.occurrences.len() ==> #[trigger] self.occurrences[i].neighborhood_id
                == self.id
    }

    /// Total activation over the occurrences.
    pub open spec fn total_activation(self) -> int {
        activation_sum(self.occurrences)
    }
}

impl Clone for Neighborhood {
    fn clone(&self) -> (r: Self)
        ensures
            r@ == self@,
    {
        let mut occs: Vec<Occurrence> = Vec::new();
        let mut i: usize = 0;
        while i < self.occurrences.len()
            invariant
                i <= self.occurrences@.len(),
                occ_views(occs@) == occ_views(self.occurrences@).take(i as int),
                occs@.len() == i,
            decreases self.occurrences.len() - i,
        {
            let ghost before = occs@;
            let c = self.occurrences[i].clone();
            assert(c@ == self.occurrences@[i as int]@);
            occs.push(c);
            assert(occs@ == before.push(c));
            assert(occ_views(occs@)[i as int] == c@);
            assert(occ_views(occs@) =~= occ_views(self.occurrences@).take(i + 1));
            i = i + 1;
        }
        assert(occ_views(occs@) =~= occ_views(self.occurrences@));
        Neighborhood {
            id: self.id,
            occurrences: occs,
            source_text: self.source_text.clone(),
            neighborhood_type: self.neighborhood_type,
        }
    }
}

/// The occurrence `o` after activating the word whose lowercase form is
/// `lw`: its count goes up by one when its own word lowercases to `lw`.
pub open spec fn activated_if(o: OccurrenceView, lw: Seq<char>) -> OccurrenceView {
    if lowercase(o.word) == lw {
        o.with_count((o.activation_count + 1) as u32)
    } else {
        o
    }
}

/// The positions, in increasing order, of the occurrences whose word
/// lowercases to `lw`.
pub open spec fn matching_positions(occs: Seq<OccurrenceView>, lw: Seq<char>) -> Seq<usize>
    decreases occs.len(),
{
    if occs.len() == 0 {
        seq![]
    } else {
        let prev = matching_positions(occs.drop_last(), lw);
        if lowercase(occs.last().word) == lw {
            prev.push((occs.len() - 1) as usize)
        } else {
            prev
        }
    }
}

/// Every occurrence whose word lowercases to `lw` can take one more
/// activation.
pub open spec fn can_activate(occs: Seq<OccurrenceView>, lw: Seq<char>) -> bool {
    forall|i: int|
        0 <= i < occs.len() && lowercase(#[trigger] occs[i].word) == lw ==> occs[i].activation_count
            < u32::MAX
}

/// The positions that `matching_positions` lists are exactly the matching
/// ones, each once, in increasing order.
pub proof fn lemma_matching_positions(occs: Seq<OccurrenceView>, lw: Seq<char>)
    requires
        occs.len() <= usize::MAX,
    ensures
        forall|k: int|
            0 <= k < matching_positions(occs, lw).len() ==> {
                let p = #[trigger] matching_positions(occs, lw)[k];
                0 <= p < occs.len() && lowercase(occs[p as int].word) == lw
            },
        forall|k: int, l: int|
            0 <= k < l < matching_positions(occs, lw).len() ==> matching_positions(occs, lw)[k]
                < matching_positions(occs, lw)[l],
        forall|i: int|
            0 <= i < occs.len() && lowercase(#[trigger] occs[i].word) == lw ==> matching_positions(
                occs,
                lw,
            ).contains(i as usize),
    decreases occs.len(),
{
    if occs.len() > 0 {
        let prev = occs.drop_last();
        lemma_matching_positions(prev, lw);
        let mp = matching_positions(prev, lw);
        let m = matching_positions(occs, lw);
        let last_matches = lowercase(occs.last().word) == lw;
        assert(m == if last_matches {
            mp.push((occs.len() - 1) as usize)
        } else {
            mp
        });
        if last_matches {
            assert(m.len() == mp.len() + 1 && m[mp.len() as int] == (occs.len() - 1) as usize);
        } else {
            assert(m.len() == mp.len());
        }
        assert forall|k: int| 0 <= k < mp.len() implies m[k] == mp[k] && mp[k] < occs.len() - 1
            && prev[mp[k] as int] == occs[mp[k] as int] by {}
        assert forall|i: int|
            0 <= i < occs.len() && lowercase(#[trigger] occs[i].word) == lw implies m.contains(
            i as usize,
        ) by {
            if i < occs.len() - 1 {
                assert(prev[i] == occs[i]);
                let x = choose|x: int| 0 <= x < mp.len() && mp[x] == i as usize;
                assert(m[x] == i as usize);
            } else {
                assert(m[m.len() - 1] == i as usize);
            }
        }
        assert forall|k: int| 0 <= k < m.len() implies {
            let p = #[trigger] m[k];
            0 <= p < occs.len() && lowercase(occs[p as int].word) == lw
        } by {
            if k < mp.len() {
                assert(m[k] == mp[k]);
                assert(0 <= mp[k] < prev.len() && lowercase(prev[mp[k] as int].word) == lw);
                assert(prev[mp[k] as int] == occs[mp[k] as int]);
            } else {
                assert(last_matches);
                assert(k == mp.len());
                assert(m[k] == occs.len() - 1);
            }
        }
        assert forall|k: int, l: int| 0 <= k < l < m.len() implies m[k] < m[l] by {
            if l < mp.len() {
                assert(m[k] == mp[k] && m[l] == mp[l]);
            } else {
                assert(m[k] == mp[k]);
                assert(mp[k] < prev.len());
                assert(last_matches);
                assert(l == mp.len());
                assert(m[l] == occs.len() - 1);
            }
        }
    }
}

impl Neighborhood {
    /// An empty neighborhood with the given text.
    pub fn new(source_text: String) -> (n: Self)
        ensures
            n@.occurrences.len() == 0,
            n@.source_text == source_text@,
            n@.neighborhood_type == NeighborhoodType::Memory,
    {
        Neighborhood {
            id: new_id(),
            occurrences: Vec::new(),
            source_text,
            neighborhood_type: NeighborhoodType::Memory,
        }
    }

    /// A neighborhood with one fresh occurrence per token, in order.
    pub fn from_tokens(tokens: &Vec<String>, source_text: &str) -> (n: Self)
        ensures
            n@.words() == strings_view(tokens@),
            n@.source_text == source_text@,
            n@.neighborhood_type == NeighborhoodType::Memory,
            n@.wf(),
            n@.total_activation() == 0,
            forall|i: int|
                0 <= i < n@.occurrences.len() ==> (#[trigger] n@.occurrences[i]).activation_count
                    == 0,
    {
        let mut n = Neighborhood::new(source_text.to_owned());
        let mut i: usize = 0;
        while i < tokens.len()
            invariant
                i <= tokens@.len(),
                n@.words() == strings_view(tokens@.take(i as int)),
                n@.source_text == source_text@,
                n@.neighborhood_type == NeighborhoodType::Memory,
                n@.wf(),
                n@.total_activation() == 0,
                forall|j: int|
                    0 <= j < n@.occurrences.len() ==> (#[trigger] n@.occurrences[j]).activation_count
                        == 0,
            decreases tokens.len() - i,
        {
            let ghost before = n@;
            assert(before.words().len() == i);
            let occ = Occurrence::new(tokens[i].clone(), n.id);
            n.occurrences.push(occ);
            assert(n@.occurrences =~= before.occurrences.push(occ@));
            assert(n@.occurrences.drop_last() =~= before.occurrences);
            assert forall|j: int| 0 <= j < i + 1 implies #[trigger] n@.words()[j] == strings_view(
                tokens@.take(i + 1),
            )[j] by {
                if j < i {
                    assert(n@.occurrences[j] == before.occurrences[j]);
                    assert(before.words()[j] == strings_view(tokens@.take(i as int))[j]);
                }
            }
            assert(n@.words() =~= strings_view(tokens@.take(i + 1)));
            i = i + 1;
        }
        assert(tokens@.take(tokens@.len() as int) == tokens@);
        n
    }

    /// Set the activation count of occurrence `o`.
    pub fn set_activation_count(&mut self, o: usize, count: u32)
        requires
            o < old(self)@.occurrences.len(),
        ensures
            final(self)@ == (NeighborhoodView {
                occurrences: old(self)@.occurrences.update(
                    o as int,
                    old(self)@.occurrences[o as int].with_count(count),
                ),
                ..old(self)@
            }),
    {
        let ghost before_vec = self.occurrences@;
        self.occurrences[o].activation_count = count;
        assert(self.occurrences@ == before_vec.update(o as int, self.occurrences@[o as int]));
        assert(self@.occurrences =~= old(self)@.occurrences.update(
            o as int,
            old(self)@.occurrences[o as int].with_count(count),
        ));
    }

    /// Number of occurrences.
    pub fn count(&self) -> (c: usize)
        ensures
            c == self@.occurrences.len(),
    {
        self.occurrences.len()
    }

    /// Total activation over the occurrences.
    pub fn total_activation(&self) -> (t: u32)
        requires
            self@.total_activation() <= u32::MAX,
        ensures
            t == self@.total_activation(),
    {
        let ghost ov = self@.occurrences;
        let mut t: u32 = 0;
        let mut i: usize = 0;
        while i < self.occurrences.len()
            invariant
                ov == self@.occurrences,
                i <= ov.len(),
                t == activation_sum(ov.take(i as int)),
                activation_sum(ov) <= u32::MAX,
            decreases self.occurrences.len() - i,
        {
            proof {
                lemma_activation_sum_prefix(ov, i + 1);
                assert(ov.take(i + 1).drop_last() == ov.take(i as int));
            }
            t = t + self.occurrences[i].activation_count;
            i = i + 1;
        }
        assert(ov.take(ov.len() as int) == ov);
        t
    }

    /// Vivid: more than half as many occurrences as `episode_count`.
    pub fn is_vivid(&self, episode_count: usize) -> (b: bool)
        ensures
            b == (episode_count != 0 && 2 * self@.occurrences.len() > episode_count),
    {
        if episode_count == 0 {
            return false;
        }
        2 * (self.occurrences.len() as u128) > episode_count as u128
    }

    /// The lowercase form of each occurrence's word, in order.
    pub fn lowercased_words(&self) -> (r: Vec<String>)
        ensures
            r@.len() == self@.occurrences.len(),
            forall|i: int|
                0 <= i < r@.len() ==> (#[trigger] r@[i])@ == lowercase(self@.occurrences[i].word),
    {
        let mut r: Vec<String> = Vec::new();
        let mut i: usize = 0;
        while i < self.occurrences.len()
            invariant
                i <= self.occurrences@.len(),
                r@.len() == i,
                forall|j: int|
                    0 <= j < i ==> (#[trigger] r@[j])@ == lowercase(self@.occurrences[j].word),
            decreases self.occurrences.len() - i,
        {
            let w = to_lowercase(self.occurrences[i].word.as_str());
            assert(self.occurrences@[i as int]@ == self@.occurrences[i as int]);
            r.push(w);
            i = i + 1;
        }
        r
    }

    /// The positions, in increasing order, of the occurrences whose
    /// lowercased word, as listed in `lower`, equals `lw`.
    pub fn positions_lowered(&self, lower: &Vec<String>, lw: &str) -> (r: Vec<usize>)
        requires
            lower@.len() == self@.occurrences.len(),
            forall|i: int|
                0 <= i < lower@.len() ==> (#[trigger] lower@[i])@ == lowercase(
                    self@.occurrences[i].word,
                ),
        ensures
            r@ == matching_positions(self@.occurrences, lw@),
    {
        let ghost ov = self@.occurrences;
        let mut r: Vec<usize> = Vec::new();
        let mut i: usize = 0;
        let n = lower.len();
        while i < n
            invariant
                n == ov.len(),
                n == lower@.len(),
                ov == self@.occurrences,
                i <= n,
                forall|j: int| 0 <= j < n ==> (#[trigger] lower@[j])@ == lowercase(ov[j].word),
                r@ == matching_positions(ov.take(i as int), lw@),
            decreases n - i,
        {
            assert(ov.take(i + 1).drop_last() == ov.take(i as int));
            assert(ov.take(i + 1).last() == ov[i as int]);
            if str_eq(lower[i].as_str(), lw) {
                r.push(i);
            }
            i = i + 1;
        }
        assert(ov.take(n as int) == ov);
        r
    }

    /// Activate every occurrence whose lowercased word, as listed in
    /// `lower`, equals `lw`; returns their positions in increasing order.
    pub fn activate_lowered(&mut self, lower: &Vec<String>, lw: &str) -> (activated: Vec<usize>)
        requires
            lower@.len() == old(self)@.occurrences.len(),
            forall|i: int|
                0 <= i < lower@.len() ==> (#[trigger] lower@[i])@ == lowercase(
                    old(self)@.occurrences[i].word,
                ),
            can_activate(old(self)@.occurrences, lw@),
        ensures
            final(self)@ == (NeighborhoodView {
                occurrences: old(self)@.occurrences.map_values(
                    |o: OccurrenceView| activated_if(o, lw@),
                ),
                ..old(self)@
            }),
            activated@ == matching_positions(old(self)@.occurrences, lw@),
    {
        let ghost ov = self@.occurrences;
        let mut activated: Vec<usize> = Vec::new();
        let mut i: usize = 0;
        let n = self.occurrences.len();
        while i < n
            invariant
                n == ov.len(),
                n == self@.occurrences.len(),
                n == lower@.len(),
                ov == old(self)@.occurrences,
                i <= n,
                self@.id == old(self)@.id,
                self@.source_text == old(self)@.source_text,
                self@.neighborhood_type == old(self)@.neighborhood_type,
                forall|j: int| 0 <= j < n ==> (#[trigger] lower@[j])@ == lowercase(ov[j].word),
                forall|j: int| i <= j < n ==> #[trigger] self.occurrences@[j]@ == ov[j],
                forall|j: int|
                    0 <= j < i ==> #[trigger] self.occurrences@[j]@ == activated_if(ov[j], lw@),
                can_activate(ov, lw@),
                activated@ == matching_positions(ov.take(i as int), lw@),
            decreases n - i,
        {
            assert(self.occurrences@[i as int]@ == ov[i as int]);
            assert(ov.take(i + 1).drop_last() == ov.take(i as int));
            assert(ov.take(i + 1).last() == ov[i as int]);
            if str_eq(lower[i].as_str(), lw) {
                assert(lower@[i as int]@ == lowercase(ov[i as int].word));
                self.occurrences[i].activate();
                activated.push(i);
            }
            i = i + 1;
        }
        assert(ov.take(n as int) == ov);
        assert forall|j: int| 0 <= j < n implies #[trigger] self@.occurrences[j] == ov.map_values(
            |o: OccurrenceView| activated_if(o, lw@),
        )[j] by {
            assert(self@.occurrences[j] == self.occurrences@[j]@);
        }
        assert(self@.occurrences =~= ov.map_values(|o: OccurrenceView| activated_if(o, lw@)));
        activated
    }

    /// Activate every occurrence whose word equals `word` ignoring case;
    /// returns their positions, in increasing order.
    pub fn activate_word(&mut self, word: &str) -> (activated: Vec<usize>)
        requires
            can_activate(old(self)@.occurrences, lowercase(word@)),
        ensures
            final(self)@ == (NeighborhoodView {
                occurrences: old(self)@.occurrences.map_values(
                    |o: OccurrenceView| activated_if(o, lowercase(word@)),
                ),
                ..old(self)@
            }),
            activated@ == matching_positions(old(self)@.occurrences, lowercase(word@)),
    {
        let lw = to_lowercase(word);
        let lower = self.lowercased_words();
        self.activate_lowered(&lower, lw.as_str())
    }
}

} // verus!
