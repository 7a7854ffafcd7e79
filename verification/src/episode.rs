//! Episodes: one document or conversation segment, made of neighborhoods.
use vstd::prelude::*;

use crate::ids::new_id;
use crate::neighborhood::{Neighborhood, NeighborhoodView};
use crate::occurrence::{Occurrence, OccurrenceView};
use crate::time::{iso8601, now_iso8601};

verus! {

/// A collection of neighborhoods representing one document or conversation
/// segment. The system has many subconscious episodes and one conscious one.
pub struct Episode {
    pub id: u128,
    pub name: String,
    pub is_conscious: bool,
    pub timestamp: String,
    pub neighborhoods: Vec<Neighborhood>,
}

/// Abstract value of an episode.
pub struct EpisodeView {
    pub id: u128,
    pub name: Seq<char>,
    pub is_conscious: bool,
    pub timestamp: Seq<char>,
    pub neighborhoods: Seq<NeighborhoodView>,
}

/// The views of a sequence of neighborhoods.
pub open spec fn nbhd_views(v: Seq<Neighborhood>) -> Seq<NeighborhoodView> {
    v.map_values(|n: Neighborhood| n@)
}

impl View for Episode {
    type V = EpisodeView;

    open spec fn view(&self) -> EpisodeView {
        EpisodeView {
            id: self.id,
            name: self.name@,
            is_conscious: self.is_conscious,
            timestamp: self.timestamp@,
            neighborhoods: nbhd_views(self.neighborhoods@),
        }
    }
}

/// The views of a sequence of borrowed occurrences.
pub open spec fn ref_views(v: Seq<&Occurrence>) -> Seq<OccurrenceView> {
    v.map_values(|o: &Occurrence| o@)
}

/// Number of occurrences over a sequence of neighborhoods.
pub open spec fn occurrence_total(ns: Seq<NeighborhoodView>) -> int
    decreases ns.len(),
{
    if ns.len() == 0 {
        0
    } else {
        occurrence_total(ns.drop_last()) + ns.last().occurrences.len()
    }
}

/// Activation over a sequence of neighborhoods.
pub open spec fn activation_total(ns: Seq<NeighborhoodView>) -> int
    decreases ns.len(),
{
    if ns.len() == 0 {
        0
    } else {
        activation_total(ns.drop_last()) + ns.last().total_activation()
    }
}

/// All occurrences of a sequence of neighborhoods, in order.
pub open spec fn all_occs(ns: Seq<NeighborhoodView>) -> Seq<OccurrenceView>
    decreases ns.len(),
{
    if ns.len() == 0 {
        seq![]
    } else {
        all_occs(ns.drop_last()) + ns.last().occurrences
    }
}

/// Prefix totals are bounded by the whole total.
pub proof fn lemma_occurrence_total_prefix(ns: Seq<NeighborhoodView>, k: int)
    requires
        0 <= k <= ns.len(),
    ensures
        0 <= occurrence_total(ns.take(k)) <= occurrence_total(ns),
    decreases ns.len() - k,
{
    if k < ns.len() {
        lemma_occurrence_total_prefix(ns, k + 1);
        assert(ns.take(k + 1).drop_last() == ns.take(k));
    } else {
        assert(ns.take(k) == ns);
    }
    lemma_occurrence_total_nonneg(ns.take(k));
}

/// Occurrence totals are never negative.
pub proof fn lemma_occurrence_total_nonneg(ns: Seq<NeighborhoodView>)
    ensures
        occurrence_total(ns) >= 0,
    decreases ns.len(),
{
    if ns.len() > 0 {
        lemma_occurrence_total_nonneg(ns.drop_last());
    }
}

/// Prefix activation totals are bounded by the whole total.
pub proof fn lemma_activation_total_prefix(ns: Seq<NeighborhoodView>, k: int)
    requires
        0 <= k <= ns.len(),
    ensures
        0 <= activation_total(ns.take(k)) <= activation_total(ns),
    decreases ns.len() - k,
{
    if k < ns.len() {
        lemma_activation_total_prefix(ns, k + 1);
        assert(ns.take(k + 1).drop_last() == ns.take(k));
        crate::neighborhood::lemma_activation_sum_nonneg(ns[k].occurrences);
    } else {
        assert(ns.take(k) == ns);
    }
    lemma_activation_total_nonneg(ns.take(k));
}

/// Activation totals are never negative.
pub proof fn lemma_activation_total_nonneg(ns: Seq<NeighborhoodView>)
    ensures
        activation_total(ns) >= 0,
    decreases ns.len(),
{
    if ns.len() > 0 {
        lemma_activation_total_nonneg(ns.drop_last());
        crate::neighborhood::lemma_activation_sum_nonneg(ns.last().occurrences);
    }
}

/// The number of occurrences of `all_occs` is `occurrence_total`.
pub proof fn lemma_all_occs_len(ns: Seq<NeighborhoodView>)
    ensures
        all_occs(ns).len() == occurrence_total(ns),
    decreases ns.len(),
{
    if ns.len() > 0 {
        lemma_all_occs_len(ns.drop_last());
    }
}

impl EpisodeView {
    /// Total occurrence count across all neighborhoods.
    pub open spec fn count(self) -> int {
        occurrence_total(self.neighborhoods)
    }

    /// Total activation across all neighborhoods.
    pub open spec fn total_activation(self) -> int {
        activation_total(self.neighborhoods)
    }

    /// Name used when composing context.
    pub open spec fn display_name(self) -> Seq<char> {
        if self.name.len() == 0 {
            "Memory"@
        } else {
            self.name
        }
    }
}

impl Episode {
    /// A new, empty subconscious episode stamped with the current time.
    pub fn new(name: &str) -> (e: Self)
        ensures
            e@.name == name@,
            !e@.is_conscious,
            e@.neighborhoods.len() == 0,
            exists|secs: nat| e@.timestamp == iso8601(secs),
    {
        Episode {
            id: new_id(),
            name: name.to_owned(),
            is_conscious: false,
            timestamp: now_iso8601(),
            neighborhoods: Vec::new(),
        }
    }

    /// A new, empty conscious episode named `conscious`.
    pub fn new_conscious() -> (e: Self)
        ensures
            e@.name == "conscious"@,
            e@.is_conscious,
            e@.neighborhoods.len() == 0,
            exists|secs: nat| e@.timestamp == iso8601(secs),
    {
        Episode {
            id: new_id(),
            name: "conscious".to_owned(),
            is_conscious: true,
            timestamp: now_iso8601(),
            neighborhoods: Vec::new(),
        }
    }

    /// Append a neighborhood.
    pub fn add_neighborhood(&mut self, neighborhood: Neighborhood)
        ensures
            final(self)@ == (EpisodeView {
                neighborhoods: old(self)@.neighborhoods.push(neighborhood@),
                ..old(self)@
            }),
    {
        self.neighborhoods.push(neighborhood);
        assert(self@.neighborhoods =~= old(self)@.neighborhoods.push(neighborhood@));
    }

    /// Set the activation count of occurrence `o` of neighborhood `n`.
    pub fn set_activation_count(&mut self, n: usize, o: usize, count: u32)
        requires
            n < old(self)@.neighborhoods.len(),
            o < old(self)@.neighborhoods[n as int].occurrences.len(),
        ensures
            final(self)@ == (EpisodeView {
                neighborhoods: old(self)@.neighborhoods.update(
                    n as int,
                    NeighborhoodView {
                        occurrences: old(self)@.neighborhoods[n as int].occurrences.update(
                            o as int,
                            old(self)@.neighborhoods[n as int].occurrences[o as int].with_count(count),
                        ),
                        ..old(self)@.neighborhoods[n as int]
                    },
                ),
                ..old(self)@
            }),
    {
        let ghost before_vec = self.neighborhoods@;
        assert(self.neighborhoods@[n as int]@ == old(self)@.neighborhoods[n as int]);
        self.neighborhoods[n].set_activation_count(o, count);
        assert(self.neighborhoods@ == before_vec.update(n as int, self.neighborhoods@[n as int]));
        assert(self@.neighborhoods =~= old(self)@.neighborhoods.update(
            n as int,
            NeighborhoodView {
                occurrences: old(self)@.neighborhoods[n as int].occurrences.update(
                    o as int,
                    old(self)@.neighborhoods[n as int].occurrences[o as int].with_count(count),
                ),
                ..old(self)@.neighborhoods[n as int]
            },
        ));
    }

    /// Total occurrence count across all neighborhoods.
    pub fn count(&self) -> (c: usize)
        requires
            self@.count() <= usize::MAX,
        ensures
            c == self@.count(),
    {
        let ghost ns = self@.neighborhoods;
        let mut c: usize = 0;
        let mut i: usize = 0;
        while i < self.neighborhoods.len()
            invariant
                ns == self@.neighborhoods,
                i <= ns.len(),
                c == occurrence_total(ns.take(i as int)),
                occurrence_total(ns) <= usize::MAX,
            decreases self.neighborhoods.len() - i,
        {
            proof {
                lemma_occurrence_total_prefix(ns, i + 1);
                assert(ns.take(i + 1).drop_last() == ns.take(i as int));
                assert(ns[i as int] == self.neighborhoods@[i as int]@);
            }
            c = c + self.neighborhoods[i].count();
            i = i + 1;
        }
        assert(ns.take(ns.len() as int) == ns);
        c
    }

    /// Total activation across all neighborhoods.
    pub fn total_activation(&self) -> (t: u32)
        requires
            self@.total_activation() <= u32::MAX,
        ensures
            t == self@.total_activation(),
    {
        let ghost ns = self@.neighborhoods;
        let mut t: u32 = 0;
        let mut i: usize = 0;
        while i < self.neighborhoods.len()
            invariant
                ns == self@.neighborhoods,
                i <= ns.len(),
                t == activation_total(ns.take(i as int)),
                activation_total(ns) <= u32::MAX,
            decreases self.neighborhoods.len() - i,
        {
            proof {
                lemma_activation_total_prefix(ns, i + 1);
                assert(ns.take(i + 1).drop_last() == ns.take(i as int));
                assert(ns[i as int] == self.neighborhoods@[i as int]@);
                lemma_activation_total_nonneg(ns.take(i as int));
            }
            t = t + self.neighborhoods[i].total_activation();
            i = i + 1;
        }
        assert(ns.take(ns.len() as int) == ns);
        t
    }

    /// Display name for context composition: the name, or `Memory` when it
    /// is empty.
    pub fn display_name(&self) -> (r: &str)
        ensures
            r@ == self@.display_name(),
    {
        let name = self.name.as_str();
        if name.is_empty() {
            "Memory"
        } else {
            name
        }
    }

    /// All occurrences across all neighborhoods, in order.
    pub fn all_occurrences(&self) -> (r: Vec<&Occurrence>)
        ensures
            ref_views(r@) == all_occs(self@.neighborhoods),
    {
        let ghost ns = self@.neighborhoods;
        let mut r: Vec<&Occurrence> = Vec::new();
        let mut i: usize = 0;
        while i < self.neighborhoods.len()
            invariant
                ns == self@.neighborhoods,
                i <= ns.len(),
                ref_views(r@) == all_occs(ns.take(i as int)),
            decreases self.neighborhoods.len() - i,
        {
            let nb = &self.neighborhoods[i];
            assert(ns[i as int] == nb@);
            let mut j: usize = 0;
            let ghost base = ref_views(r@);
            while j < nb.occurrences.len()
                invariant
                    j <= nb@.occurrences.len(),
                    ref_views(r@) == base + nb@.occurrences.take(j as int),
                decreases nb.occurrences.len() - j,
            {
                let ghost before = r@;
                let o = &nb.occurrences[j];
                r.push(o);
                assert(nb@.occurrences.len() == nb.occurrences@.len());
                assert(nb@.occurrences[j as int] == o@);
                assert(r@ == before.push(o));
                assert(ref_views(before).len() == before.len());
                assert(ref_views(r@).len() == r@.len());
                assert forall|k: int| 0 <= k < r@.len() implies #[trigger] ref_views(r@)[k] == (base + nb@.occurrences.take(j + 1))[k] by {
                    if k < before.len() {
                        assert(r@[k] == before[k]);
                        assert(ref_views(before)[k] == (base
                            + nb@.occurrences.take(j as int))[k]);
                    } else {
                        assert(k == base.len() + j);
                    }
                }
                assert(ref_views(r@) =~= base + nb@.occurrences.take(j + 1));
                j = j + 1;
            }
            assert(nb@.occurrences.take(nb@.occurrences.len() as int) == nb@.occurrences);
            assert(ns.take(i + 1).drop_last() == ns.take(i as int));
            i = i + 1;
        }
        assert(ns.take(ns.len() as int) == ns);
        r
    }
}

} // verus!
