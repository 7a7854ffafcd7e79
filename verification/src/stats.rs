//! How activation is spread over the occurrences of a memory: the figures
//! that an overview of the memory reports.
use vstd::prelude::*;

use crate::episode::{all_occs, lemma_all_occs_len, ref_views, EpisodeView};
use crate::neighborhood::activation_sum;
use crate::occurrence::{Occurrence, OccurrenceView};
use crate::system::{episodes_count, lemma_episodes_count_prefix, DAESystem, SystemView};
use crate::text::str_eq;

verus! {

/// Number of occurrences of `occs` that were never activated.
pub open spec fn zero_count(occs: Seq<OccurrenceView>) -> int
    decreases occs.len(),
{
    if occs.len() == 0 {
        0
    } else {
        zero_count(occs.drop_last()) + if occs.last().activation_count == 0 {
            1int
        } else {
            0int
        }
    }
}

/// The highest activation count of `occs`; 0 when there is none.
pub open spec fn max_count(occs: Seq<OccurrenceView>) -> int
    decreases occs.len(),
{
    if occs.len() == 0 {
        0
    } else {
        let m = max_count(occs.drop_last());
        let c = occs.last().activation_count as int;
        if c > m {
            c
        } else {
            m
        }
    }
}

/// The occurrences of a sequence of episodes, episode by episode.
pub open spec fn episodes_occs(eps: Seq<EpisodeView>) -> Seq<OccurrenceView>
    decreases eps.len(),
{
    if eps.len() == 0 {
        seq![]
    } else {
        episodes_occs(eps.drop_last()) + all_occs(eps.last().neighborhoods)
    }
}

/// Every occurrence of the system: the subconscious episodes in order, then
/// the conscious one.
pub open spec fn system_occs(s: SystemView) -> Seq<OccurrenceView> {
    episodes_occs(s.episodes) + all_occs(s.conscious.neighborhoods)
}

/// Activation figures over a set of occurrences.
pub struct ActivationSummary {
    /// Number of occurrences.
    pub total: usize,
    /// Sum of their activation counts.
    pub sum: u128,
    /// Highest activation count (0 when there is no occurrence).
    pub max: u32,
    /// Number of occurrences never activated.
    pub zero: usize,
}

impl ActivationSummary {
    /// The figures are those of `occs`.
    pub open spec fn describes(self, occs: Seq<OccurrenceView>) -> bool {
        &&& self.total == occs.len()
        &&& self.sum == activation_sum(occs)
        &&& self.max == max_count(occs)
        &&& self.zero == zero_count(occs)
    }
}

/// The sum of `k` activation counts is at most `k` times the largest count
/// a `u32` holds, and a count of unactivated occurrences at most `k`.
proof fn lemma_summary_bounds(occs: Seq<OccurrenceView>)
    ensures
        0 <= activation_sum(occs) <= occs.len() * 0xFFFF_FFFFint,
        0 <= zero_count(occs) <= occs.len(),
        0 <= max_count(occs) <= u32::MAX,
    decreases occs.len(),
{
    if occs.len() > 0 {
        lemma_summary_bounds(occs.drop_last());
    }
}

/// The occurrences of a prefix of episodes number their occurrence count.
proof fn lemma_episodes_occs_len(eps: Seq<EpisodeView>)
    ensures
        episodes_occs(eps).len() == episodes_count(eps),
    decreases eps.len(),
{
    if eps.len() > 0 {
        lemma_episodes_occs_len(eps.drop_last());
        lemma_all_occs_len(eps.last().neighborhoods);
    }
}

/// Account for one more occurrence.
fn add_occurrence(acc: &mut ActivationSummary, o: &Occurrence, Ghost(seen): Ghost<Seq<OccurrenceView>>)
    requires
        old(acc).describes(seen),
        seen.len() < usize::MAX,
    ensures
        final(acc).describes(seen.push(o@)),
{
    proof {
        lemma_summary_bounds(seen);
        assert(seen.push(o@).drop_last() == seen);
    }
    acc.total = acc.total + 1;
    acc.sum = acc.sum + o.activation_count as u128;
    if o.activation_count > acc.max {
        acc.max = o.activation_count;
    }
    if o.activation_count == 0 {
        acc.zero = acc.zero + 1;
    }
}

/// Account for every occurrence of a list of occurrences.
fn add_all(acc: &mut ActivationSummary, occs: &Vec<&Occurrence>, Ghost(seen): Ghost<Seq<OccurrenceView>>)
    requires
        old(acc).describes(seen),
        seen.len() + occs@.len() <= usize::MAX,
    ensures
        final(acc).describes(seen + ref_views(occs@)),
{
    let ghost rv = ref_views(occs@);
    let mut j: usize = 0;
    while j < occs.len()
        invariant
            rv == ref_views(occs@),
            j <= occs@.len(),
            seen.len() + occs@.len() <= usize::MAX,
            acc.describes(seen + rv.take(j as int)),
        decreases occs.len() - j,
    {
        proof {
            assert(seen + rv.take(j + 1) == (seen + rv.take(j as int)).push(occs@[j as int]@));
        }
        add_occurrence(acc, occs[j], Ghost(seen + rv.take(j as int)));
        j = j + 1;
    }
    assert(rv.take(occs@.len() as int) == rv);
}

/// The activation figures of every occurrence of the system, subconscious
/// and conscious alike.
pub fn activation_summary(system: &DAESystem) -> (r: ActivationSummary)
    requires
        system@.count() <= usize::MAX,
    ensures
        r.describes(system_occs(system@)),
        r.total == system@.count(),
{
    let ghost s = system@;
    let ghost eps = s.episodes;
    let mut acc = ActivationSummary { total: 0, sum: 0, max: 0, zero: 0 };
    let mut i: usize = 0;
    proof {
        assert(eps.take(0) == Seq::<EpisodeView>::empty());
        lemma_episodes_count_prefix(eps, eps.len() as int);
        crate::episode::lemma_occurrence_total_nonneg(s.conscious.neighborhoods);
    }
    while i < system.episodes.len()
        invariant
            s == system@,
            eps == s.episodes,
            i <= eps.len(),
            s.count() <= usize::MAX,
            episodes_count(eps) <= s.count(),
            acc.describes(episodes_occs(eps.take(i as int))),
        decreases system.episodes.len() - i,
    {
        let occs = system.episodes[i].all_occurrences();
        proof {
            assert(eps[i as int] == system.episodes@[i as int]@);
            assert(eps.take(i + 1).drop_last() == eps.take(i as int));
            assert(eps.take(i + 1).last() == eps[i as int]);
            lemma_episodes_occs_len(eps.take(i + 1));
            lemma_episodes_count_prefix(eps, i + 1);
        }
        add_all(&mut acc, &occs, Ghost(episodes_occs(eps.take(i as int))));
        i = i + 1;
    }
    let occs = system.conscious_episode.all_occurrences();
    proof {
        assert(eps.take(eps.len() as int) == eps);
        lemma_episodes_occs_len(eps);
        lemma_all_occs_len(s.conscious.neighborhoods);
    }
    add_all(&mut acc, &occs, Ghost(episodes_occs(eps)));
    acc
}

/// The words of `occs`, each once, in order of first appearance.
pub open spec fn distinct_words(occs: Seq<OccurrenceView>) -> Seq<Seq<char>>
    decreases occs.len(),
{
    if occs.len() == 0 {
        seq![]
    } else {
        let prev = distinct_words(occs.drop_last());
        if prev.contains(occs.last().word) {
            prev
        } else {
            prev.push(occs.last().word)
        }
    }
}

/// The summed activation counts of the occurrences of `occs` holding `w`.
pub open spec fn word_activation(occs: Seq<OccurrenceView>, w: Seq<char>) -> int
    decreases occs.len(),
{
    if occs.len() == 0 {
        0
    } else {
        word_activation(occs.drop_last(), w) + if occs.last().word == w {
            occs.last().activation_count as int
        } else {
            0int
        }
    }
}

/// The number of occurrences of `occs` holding `w`.
pub open spec fn word_occurrences(occs: Seq<OccurrenceView>, w: Seq<char>) -> int
    decreases occs.len(),
{
    if occs.len() == 0 {
        0
    } else {
        word_occurrences(occs.drop_last(), w) + if occs.last().word == w {
            1int
        } else {
            0int
        }
    }
}

/// One word of the memory: its summed activation and its number of
/// occurrences.
pub struct WordTotal {
    pub word: String,
    pub activation: u128,
    pub occurrences: usize,
}

/// `totals` holds, in order, each distinct word of `occs` with its figures.
pub open spec fn totals_describe(totals: Seq<WordTotal>, occs: Seq<OccurrenceView>) -> bool {
    &&& totals.len() == distinct_words(occs).len()
    &&& forall|i: int|
        0 <= i < totals.len() ==> {
            let t = #[trigger] totals[i];
            let w = distinct_words(occs)[i];
            &&& t.word@ == w
            &&& t.activation == word_activation(occs, w)
            &&& t.occurrences == word_occurrences(occs, w)
        }
}

proof fn lemma_word_figures_bounds(occs: Seq<OccurrenceView>, w: Seq<char>)
    ensures
        0 <= word_activation(occs, w) <= occs.len() * 0xFFFF_FFFFint,
        0 <= word_occurrences(occs, w) <= occs.len(),
    decreases occs.len(),
{
    if occs.len() > 0 {
        lemma_word_figures_bounds(occs.drop_last(), w);
    }
}

proof fn lemma_distinct_words(occs: Seq<OccurrenceView>)
    ensures
        distinct_words(occs).no_duplicates(),
        forall|w: Seq<char>|
            !distinct_words(occs).contains(w) ==> word_activation(occs, w) == 0 && word_occurrences(occs, w) == 0,
    decreases occs.len(),
{
    if occs.len() > 0 {
        lemma_distinct_words(occs.drop_last());
        let prev = distinct_words(occs.drop_last());
        let x = occs.last().word;
        if !prev.contains(x) {
            assert forall|i: int, j: int| 0 <= i < prev.push(x).len() && 0 <= j < prev.push(x).len() && i != j implies prev.push(
                x,
            )[i] != prev.push(x)[j] by {
                if i < prev.len() && j < prev.len() {
                } else if i < prev.len() {
                    assert(prev.contains(prev[i]));
                } else {
                    assert(prev.contains(prev[j]));
                }
            }
        }
        assert forall|w: Seq<char>| !distinct_words(occs).contains(w) implies word_activation(occs, w) == 0
            && word_occurrences(occs, w) == 0 by {
            let dwo = distinct_words(occs);
            if prev.contains(w) {
                let k = choose|k: int| 0 <= k < prev.len() && prev[k] == w;
                if !prev.contains(x) {
                    assert(prev.push(x)[k] == w);
                }
                assert(dwo[k] == w);
                assert(dwo.contains(w));
            }
            if w == x {
                if !prev.contains(x) {
                    assert(prev.push(x)[prev.len() as int] == x);
                    assert(dwo[prev.len() as int] == w);
                } else {
                    let k = choose|k: int| 0 <= k < prev.len() && prev[k] == x;
                    assert(dwo[k] == w);
                }
                assert(dwo.contains(w));
            }
            assert(!prev.contains(w));
            assert(word_activation(occs.drop_last(), w) == 0);
            assert(word_occurrences(occs.drop_last(), w) == 0);
        }
    }
}

/// Account for one more occurrence in the word figures.
fn add_word(totals: &mut Vec<WordTotal>, o: &Occurrence, Ghost(seen): Ghost<Seq<OccurrenceView>>)
    requires
        totals_describe(old(totals)@, seen),
        seen.len() < usize::MAX,
    ensures
        totals_describe(final(totals)@, seen.push(o@)),
{
    let ghost next = seen.push(o@);
    let ghost dw = distinct_words(seen);
    proof {
        lemma_distinct_words(seen);
        assert(next.drop_last() == seen);
        assert(next.last() == o@);
    }
    let mut j: usize = 0;
    let mut found = false;
    while j < totals.len()
        invariant_except_break
            !found,
        invariant
            j <= totals@.len(),
            totals_describe(totals@, seen),
            dw == distinct_words(seen),
            forall|i: int| 0 <= i < j ==> dw[i] != o.word@,
        ensures
            j <= totals@.len(),
            found ==> j < totals@.len() && dw[j as int] == o.word@,
            !found ==> j == totals@.len() && forall|i: int| 0 <= i < totals@.len() ==> dw[i] != o.word@,
        decreases totals.len() - j,
    {
        if str_eq(totals[j].word.as_str(), o.word.as_str()) {
            found = true;
            break;
        }
        j = j + 1;
    }
    if found {
        proof {
            lemma_word_figures_bounds(seen, o.word@);
            assert(dw.contains(o.word@));
            assert(distinct_words(next) == dw);
        }
        let ghost before = totals@;
        let mut t = totals.remove(j);
        let ghost old_t = t;
        assert(old_t == before[j as int]);
        t.activation = t.activation + o.activation_count as u128;
        t.occurrences = t.occurrences + 1;
        totals.insert(j, t);
        proof {
            assert(totals@.len() == before.len());
            assert forall|i: int| 0 <= i < totals@.len() implies {
                let t = #[trigger] totals@[i];
                let w = distinct_words(next)[i];
                &&& t.word@ == w
                &&& t.activation == word_activation(next, w)
                &&& t.occurrences == word_occurrences(next, w)
            } by {
                assert(distinct_words(next)[i] == dw[i]);
                if i != j {
                    assert(totals@[i] == before[i]);
                    assert(dw[i] != dw[j as int]);
                    assert(word_activation(next, dw[i]) == word_activation(seen, dw[i]));
                    assert(word_occurrences(next, dw[i]) == word_occurrences(seen, dw[i]));
                } else {
                    assert(totals@[i].word == old_t.word);
                    assert(totals@[i].activation == old_t.activation + o.activation_count);
                    assert(word_activation(next, dw[i]) == word_activation(seen, dw[i]) + o.activation_count);
                    assert(word_occurrences(next, dw[i]) == word_occurrences(seen, dw[i]) + 1);
                }
            }
        }
    } else {
        proof {
            assert(!dw.contains(o.word@)) by {
                if dw.contains(o.word@) {
                    let k = choose|k: int| 0 <= k < dw.len() && dw[k] == o.word@;
                    assert(dw[k] != o.word@);
                }
            }
            assert(distinct_words(next) == dw.push(o.word@));
        }
        let ghost before = totals@;
        let w = o.word.clone();
        totals.push(WordTotal { word: w, activation: o.activation_count as u128, occurrences: 1 });
        proof {
            assert forall|i: int| 0 <= i < totals@.len() implies {
                let t = #[trigger] totals@[i];
                let w = distinct_words(next)[i];
                &&& t.word@ == w
                &&& t.activation == word_activation(next, w)
                &&& t.occurrences == word_occurrences(next, w)
            } by {
                if i < before.len() {
                    assert(totals@[i] == before[i]);
                    assert(dw[i] != o.word@);
                    assert(distinct_words(next)[i] == dw[i]);
                    assert(word_activation(next, dw[i]) == word_activation(seen, dw[i]));
                    assert(word_occurrences(next, dw[i]) == word_occurrences(seen, dw[i]));
                } else {
                    assert(i == before.len());
                    assert(distinct_words(next)[i] == o.word@);
                    assert(totals@[i].word@ == o.word@);
                    assert(word_activation(seen, o.word@) == 0);
                    assert(word_occurrences(seen, o.word@) == 0);
                    assert(word_activation(next, o.word@) == o.activation_count);
                }
            }
        }
    }
}

/// Account for every occurrence of a list of occurrences in the word
/// figures.
fn add_words(totals: &mut Vec<WordTotal>, occs: &Vec<&Occurrence>, Ghost(seen): Ghost<Seq<OccurrenceView>>)
    requires
        totals_describe(old(totals)@, seen),
        seen.len() + occs@.len() <= usize::MAX,
    ensures
        totals_describe(final(totals)@, seen + ref_views(occs@)),
{
    let ghost rv = ref_views(occs@);
    let mut j: usize = 0;
    while j < occs.len()
        invariant
            rv == ref_views(occs@),
            j <= occs@.len(),
            seen.len() + occs@.len() <= usize::MAX,
            totals_describe(totals@, seen + rv.take(j as int)),
        decreases occs.len() - j,
    {
        proof {
            assert(seen + rv.take(j + 1) == (seen + rv.take(j as int)).push(occs@[j as int]@));
        }
        add_word(totals, occs[j], Ghost(seen + rv.take(j as int)));
        j = j + 1;
    }
    assert(rv.take(occs@.len() as int) == rv);
}

/// Every distinct word of the system, subconscious and conscious alike, in
/// order of first appearance, with its summed activation and its number of
/// occurrences.
pub fn word_totals(system: &DAESystem) -> (r: Vec<WordTotal>)
    requires
        system@.count() <= usize::MAX,
    ensures
        totals_describe(r@, system_occs(system@)),
{
    let ghost s = system@;
    let ghost eps = s.episodes;
    let mut totals: Vec<WordTotal> = Vec::new();
    let mut i: usize = 0;
    proof {
        assert(eps.take(0) == Seq::<EpisodeView>::empty());
        lemma_episodes_count_prefix(eps, eps.len() as int);
        crate::episode::lemma_occurrence_total_nonneg(s.conscious.neighborhoods);
    }
    while i < system.episodes.len()
        invariant
            s == system@,
            eps == s.episodes,
            i <= eps.len(),
            s.count() <= usize::MAX,
            episodes_count(eps) <= s.count(),
            totals_describe(totals@, episodes_occs(eps.take(i as int))),
        decreases system.episodes.len() - i,
    {
        let occs = system.episodes[i].all_occurrences();
        proof {
            assert(eps[i as int] == system.episodes@[i as int]@);
            assert(eps.take(i + 1).drop_last() == eps.take(i as int));
            assert(eps.take(i + 1).last() == eps[i as int]);
            lemma_episodes_occs_len(eps.take(i + 1));
            lemma_episodes_count_prefix(eps, i + 1);
        }
        add_words(&mut totals, &occs, Ghost(episodes_occs(eps.take(i as int))));
        i = i + 1;
    }
    let occs = system.conscious_episode.all_occurrences();
    proof {
        assert(eps.take(eps.len() as int) == eps);
        lemma_episodes_occs_len(eps);
        lemma_all_occs_len(s.conscious.neighborhoods);
    }
    add_words(&mut totals, &occs, Ghost(episodes_occs(eps)));
    totals
}

/// No word comes after one with a smaller summed activation.
pub open spec fn by_activation(v: Seq<WordTotal>) -> bool {
    forall|i: int, j: int| 0 <= i < j < v.len() ==> (#[trigger] v[i]).activation >= (#[trigger] v[j]).activation
}

/// The word figures from the most activated word down (an insertion sort):
/// the same figures, none after one with a smaller activation.
pub fn rank_word_totals(totals: Vec<WordTotal>) -> (r: Vec<WordTotal>)
    ensures
        by_activation(r@),
        r@.to_multiset() == totals@.to_multiset(),
{
    broadcast use vstd::seq_lib::group_to_multiset_ensures, vstd::multiset::group_multiset_axioms;

    let ghost orig = totals@;
    let mut rest = totals;
    let mut out: Vec<WordTotal> = Vec::new();
    assert(out@.to_multiset().add(rest@.to_multiset()) =~= orig.to_multiset());
    while rest.len() > 0
        invariant
            by_activation(out@),
            out@.to_multiset().add(rest@.to_multiset()) == orig.to_multiset(),
        decreases rest.len(),
    {
        let ghost before_rest = rest@;
        let ghost before_out = out@;
        let item = rest.remove(0);
        let mut p: usize = 0;
        while p < out.len()
            invariant
                p <= out@.len(),
                out@ == before_out,
                by_activation(out@),
                forall|j: int| 0 <= j < p ==> (#[trigger] out@[j]).activation >= item.activation,
            ensures
                p <= out@.len(),
                forall|j: int| 0 <= j < p ==> (#[trigger] out@[j]).activation >= item.activation,
                p < out@.len() ==> out@[p as int].activation < item.activation,
            decreases out.len() - p,
        {
            if out[p].activation < item.activation {
                break;
            }
            p = p + 1;
        }
        proof {
            assert forall|i: int, j: int| 0 <= i < j < before_out.len() + 1 implies (#[trigger] before_out.insert(
                p as int,
                item,
            )[i]).activation >= (#[trigger] before_out.insert(p as int, item)[j]).activation by {
                let ns = before_out.insert(p as int, item);
                if j < p {
                    assert(ns[i] == before_out[i] && ns[j] == before_out[j]);
                } else if j == p {
                    assert(ns[i] == before_out[i]);
                } else if i == p {
                    assert(ns[j] == before_out[j - 1]);
                    assert(before_out[p as int].activation >= before_out[j - 1].activation);
                } else if i < p {
                    assert(ns[i] == before_out[i] && ns[j] == before_out[j - 1]);
                } else {
                    assert(ns[i] == before_out[i - 1] && ns[j] == before_out[j - 1]);
                }
            }
        }
        out.insert(p, item);
        proof {
            assert(before_rest.remove(0) == rest@);
            assert(before_rest[0] == item);
            assert(out@ == before_out.insert(p as int, item));
            vstd::seq_lib::to_multiset_insert(before_out, p as int, item);
            vstd::seq_lib::to_multiset_remove(before_rest, 0);
            vstd::seq_lib::to_multiset_contains(before_rest, item);
            assert(before_rest.contains(item));
            assert(out@.to_multiset().add(rest@.to_multiset()) =~= before_out.to_multiset().add(
                before_rest.to_multiset(),
            ));
        }
    }
    assert(rest@.to_multiset() =~= vstd::multiset::Multiset::empty());
    assert(out@.to_multiset().add(rest@.to_multiset()) =~= out@.to_multiset());
    out
}

} // verus!
