//! What surfaces from a query: the occurrences whose interference is
//! positive or whose word the conscious manifold lacks, and the
//! neighborhoods and episodes where more than half of the occurrences
//! surfaced.
//!
//! The sign of an interference is floating point and is decided by the
//! caller, which hands over the subconscious locations whose interference is
//! positive.
use std::collections::{HashMap, HashSet};
use vstd::prelude::*;

use crate::episode::EpisodeView;
use crate::neighborhood::NeighborhoodView;
use crate::system::{
    episodes_count, lemma_episodes_count_prefix, ActivationResult, DAESystem, OccurrenceRef, SystemView,
};
use crate::text::{lowercase, str_eq, to_lowercase};

verus! {

/// The lowercase word of the occurrence at `r`.
pub open spec fn lowered_word(s: SystemView, r: OccurrenceRef) -> Seq<char> {
    lowercase(s.occurrence(r).word)
}

/// No occurrence at a location of `con` holds the word of `r`, ignoring
/// case.
pub open spec fn is_novel(s: SystemView, con: Seq<OccurrenceRef>, r: OccurrenceRef) -> bool {
    forall|j: int| 0 <= j < con.len() ==> lowered_word(s, #[trigger] con[j]) != lowered_word(s, r)
}

/// The locations of `sub` whose word is novel with respect to `con`, in
/// order.
pub open spec fn novel_refs(s: SystemView, sub: Seq<OccurrenceRef>, con: Seq<OccurrenceRef>) -> Seq<
    OccurrenceRef,
>
    decreases sub.len(),
{
    if sub.len() == 0 {
        seq![]
    } else {
        let prev = novel_refs(s, sub.drop_last(), con);
        if is_novel(s, con, sub.last()) {
            prev.push(sub.last())
        } else {
            prev
        }
    }
}

/// The first appearance of each location of `rs`, in order.
pub open spec fn first_appearances(rs: Seq<OccurrenceRef>) -> Seq<OccurrenceRef>
    decreases rs.len(),
{
    if rs.len() == 0 {
        seq![]
    } else {
        let prev = first_appearances(rs.drop_last());
        if prev.contains(rs.last()) {
            prev
        } else {
            prev.push(rs.last())
        }
    }
}

/// What surfaces: the locations of positive interference, then the
/// subconscious locations of novel words, each once.
pub open spec fn surfaced_refs(
    s: SystemView,
    positive: Seq<OccurrenceRef>,
    sub: Seq<OccurrenceRef>,
    con: Seq<OccurrenceRef>,
) -> Seq<OccurrenceRef> {
    first_appearances(positive + novel_refs(s, sub, con))
}

/// Number of locations of `surf` whose neighborhood has id `id`.
pub open spec fn surfaced_count(s: SystemView, surf: Seq<OccurrenceRef>, id: u128) -> nat
    decreases surf.len(),
{
    if surf.len() == 0 {
        0
    } else {
        surfaced_count(s, surf.drop_last(), id) + if s.container(surf.last()).id == id {
            1nat
        } else {
            0nat
        }
    }
}

/// A count over `surf` is at most its length.
proof fn lemma_surfaced_count_bound(s: SystemView, surf: Seq<OccurrenceRef>, id: u128)
    ensures
        surfaced_count(s, surf, id) <= surf.len(),
    decreases surf.len(),
{
    if surf.len() > 0 {
        lemma_surfaced_count_bound(s, surf.drop_last(), id);
    }
}

/// Every location of `rs` names an occurrence of `s`.
pub open spec fn all_valid(s: SystemView, rs: Seq<OccurrenceRef>) -> bool {
    forall|i: int| 0 <= i < rs.len() ==> s.has_occurrence(#[trigger] rs[i])
}

/// The lowercase word of each location of `refs`.
fn lowered_words_at(system: &DAESystem, refs: &Vec<OccurrenceRef>) -> (r: Vec<String>)
    requires
        all_valid(system@, refs@),
    ensures
        r@.len() == refs@.len(),
        forall|i: int| 0 <= i < r@.len() ==> (#[trigger] r@[i])@ == lowered_word(system@, refs@[i]),
{
    let mut r: Vec<String> = Vec::new();
    let mut i: usize = 0;
    while i < refs.len()
        invariant
            all_valid(system@, refs@),
            i <= refs@.len(),
            r@.len() == i,
            forall|j: int| 0 <= j < i ==> (#[trigger] r@[j])@ == lowered_word(system@, refs@[j]),
        decreases refs.len() - i,
    {
        let o = system.get_occurrence(refs[i]);
        r.push(to_lowercase(o.word.as_str()));
        i = i + 1;
    }
    r
}

/// Whether some text of `ws` equals `w`.
fn holds_text(ws: &Vec<String>, w: &str) -> (b: bool)
    ensures
        b == exists|j: int| 0 <= j < ws@.len() && (#[trigger] ws@[j])@ == w@,
{
    let mut j: usize = 0;
    while j < ws.len()
        invariant
            j <= ws@.len(),
            forall|k: int| 0 <= k < j ==> (#[trigger] ws@[k])@ != w@,
        decreases ws.len() - j,
    {
        if str_eq(ws[j].as_str(), w) {
            return true;
        }
        j = j + 1;
    }
    false
}

/// The locations of `sub` whose word no location of `con` holds.
fn novel_at(
    system: &DAESystem,
    sub: &Vec<OccurrenceRef>,
    con_words: &Vec<String>,
    Ghost(con): Ghost<Seq<OccurrenceRef>>,
) -> (r: Vec<OccurrenceRef>)
    requires
        all_valid(system@, sub@),
        con_words@.len() == con.len(),
        forall|i: int| 0 <= i < con.len() ==> (#[trigger] con_words@[i])@ == lowered_word(system@, con[i]),
    ensures
        r@ == novel_refs(system@, sub@, con),
{
    let mut r: Vec<OccurrenceRef> = Vec::new();
    let mut i: usize = 0;
    while i < sub.len()
        invariant
            all_valid(system@, sub@),
            con_words@.len() == con.len(),
            forall|k: int| 0 <= k < con.len() ==> (#[trigger] con_words@[k])@ == lowered_word(system@, con[k]),
            i <= sub@.len(),
            r@ == novel_refs(system@, sub@.take(i as int), con),
        decreases sub.len() - i,
    {
        let x = sub[i];
        let o = system.get_occurrence(x);
        let w = to_lowercase(o.word.as_str());
        let held = holds_text(con_words, w.as_str());
        proof {
            assert(sub@.take(i + 1).drop_last() == sub@.take(i as int));
            assert(sub@.take(i + 1).last() == x);
            if held {
                let j = choose|j: int| 0 <= j < con_words@.len() && (#[trigger] con_words@[j])@ == w@;
                assert(lowered_word(system@, con[j]) == lowered_word(system@, x));
            } else {
                assert forall|j: int| 0 <= j < con.len() implies lowered_word(system@, #[trigger] con[j])
                    != lowered_word(system@, x) by {
                    assert(con_words@[j]@ == lowered_word(system@, con[j]));
                }
            }
        }
        if !held {
            r.push(x);
        }
        i = i + 1;
    }
    assert(sub@.take(sub@.len() as int) == sub@);
    r
}

/// Whether `rs` holds `x`.
fn holds_ref(rs: &Vec<OccurrenceRef>, x: OccurrenceRef) -> (b: bool)
    ensures
        b == rs@.contains(x),
{
    let mut j: usize = 0;
    while j < rs.len()
        invariant
            j <= rs@.len(),
            forall|k: int| 0 <= k < j ==> rs@[k] != x,
        decreases rs.len() - j,
    {
        if rs[j] == x {
            assert(rs@[j as int] == x);
            return true;
        }
        j = j + 1;
    }
    false
}

/// The first appearance of each location of `rs`, in order.
fn first_appearances_of(rs: &Vec<OccurrenceRef>) -> (r: Vec<OccurrenceRef>)
    ensures
        r@ == first_appearances(rs@),
{
    let mut r: Vec<OccurrenceRef> = Vec::new();
    let mut i: usize = 0;
    while i < rs.len()
        invariant
            i <= rs@.len(),
            r@ == first_appearances(rs@.take(i as int)),
        decreases rs.len() - i,
    {
        proof {
            assert(rs@.take(i + 1).drop_last() == rs@.take(i as int));
            assert(rs@.take(i + 1).last() == rs@[i as int]);
        }
        if !holds_ref(&r, rs[i]) {
            r.push(rs[i]);
        }
        i = i + 1;
    }
    assert(rs@.take(rs@.len() as int) == rs@);
    r
}

/// Every element of `first_appearances(rs)` is an element of `rs`.
proof fn lemma_first_appearances_subset(rs: Seq<OccurrenceRef>)
    ensures
        forall|i: int|
            0 <= i < first_appearances(rs).len() ==> rs.contains(#[trigger] first_appearances(rs)[i]),
    decreases rs.len(),
{
    if rs.len() > 0 {
        lemma_first_appearances_subset(rs.drop_last());
        let prev = first_appearances(rs.drop_last());
        assert forall|i: int| 0 <= i < first_appearances(rs).len() implies rs.contains(
            #[trigger] first_appearances(rs)[i],
        ) by {
            if i < prev.len() {
                let k = choose|k: int| 0 <= k < rs.drop_last().len() && rs.drop_last()[k] == prev[i];
                assert(rs[k] == prev[i]);
            } else {
                assert(rs[rs.len() - 1] == rs.last());
            }
        }
    }
}

/// Every element of `novel_refs(s, sub, con)` is an element of `sub`.
proof fn lemma_novel_refs_subset(s: SystemView, sub: Seq<OccurrenceRef>, con: Seq<OccurrenceRef>)
    ensures
        forall|i: int|
            0 <= i < novel_refs(s, sub, con).len() ==> sub.contains(#[trigger] novel_refs(s, sub, con)[i]),
    decreases sub.len(),
{
    if sub.len() > 0 {
        lemma_novel_refs_subset(s, sub.drop_last(), con);
        let prev = novel_refs(s, sub.drop_last(), con);
        assert forall|i: int| 0 <= i < novel_refs(s, sub, con).len() implies sub.contains(
            #[trigger] novel_refs(s, sub, con)[i],
        ) by {
            if i < prev.len() {
                let k = choose|k: int| 0 <= k < sub.drop_last().len() && sub.drop_last()[k] == prev[i];
                assert(sub[k] == prev[i]);
            } else {
                assert(sub[sub.len() - 1] == sub.last());
            }
        }
    }
}

/// Membership in a sequence with one more element.
proof fn lemma_push_contains(p: Seq<OccurrenceRef>, l: OccurrenceRef)
    ensures
        forall|x: OccurrenceRef| p.push(l).contains(x) <==> (p.contains(x) || x == l),
{
    assert forall|x: OccurrenceRef| p.push(l).contains(x) <==> (p.contains(x) || x == l) by {
        if p.push(l).contains(x) {
            let k = choose|k: int| 0 <= k < p.push(l).len() && p.push(l)[k] == x;
            if k < p.len() {
                assert(p[k] == x);
            }
        }
        if p.contains(x) {
            let k = choose|k: int| 0 <= k < p.len() && p[k] == x;
            assert(p.push(l)[k] == x);
        }
        if x == l {
            assert(p.push(l)[p.len() as int] == x);
        }
    }
}

/// `first_appearances(rs)` holds each element of `rs` exactly once.
proof fn lemma_first_appearances(rs: Seq<OccurrenceRef>)
    ensures
        first_appearances(rs).no_duplicates(),
        forall|x: OccurrenceRef| first_appearances(rs).contains(x) <==> rs.contains(x),
    decreases rs.len(),
{
    if rs.len() > 0 {
        let init = rs.drop_last();
        lemma_first_appearances(init);
        lemma_push_contains(first_appearances(init), rs.last());
        assert forall|x: OccurrenceRef| rs.contains(x) <==> (init.contains(x) || x == rs.last()) by {
            if rs.contains(x) {
                let k = choose|k: int| 0 <= k < rs.len() && rs[k] == x;
                if k < rs.len() - 1 {
                    assert(init[k] == x);
                }
            }
            if init.contains(x) {
                let k = choose|k: int| 0 <= k < init.len() && init[k] == x;
                assert(rs[k] == x);
            }
            if x == rs.last() {
                assert(rs[rs.len() - 1] == x);
            }
        }
    }
}

/// `novel_refs(s, sub, con)` holds exactly the novel elements of `sub`.
proof fn lemma_novel_refs_contains(s: SystemView, sub: Seq<OccurrenceRef>, con: Seq<OccurrenceRef>)
    ensures
        forall|x: OccurrenceRef|
            novel_refs(s, sub, con).contains(x) <==> (sub.contains(x) && is_novel(s, con, x)),
    decreases sub.len(),
{
    if sub.len() > 0 {
        let init = sub.drop_last();
        lemma_novel_refs_contains(s, init, con);
        lemma_push_contains(novel_refs(s, init, con), sub.last());
        assert forall|x: OccurrenceRef| sub.contains(x) <==> (init.contains(x) || x == sub.last()) by {
            if sub.contains(x) {
                let k = choose|k: int| 0 <= k < sub.len() && sub[k] == x;
                if k < sub.len() - 1 {
                    assert(init[k] == x);
                }
            }
            if init.contains(x) {
                let k = choose|k: int| 0 <= k < init.len() && init[k] == x;
                assert(sub[k] == x);
            }
            if x == sub.last() {
                assert(sub[sub.len() - 1] == x);
            }
        }
    }
}

/// Counts of the surfaced locations by the id of their neighborhood.
fn count_by_neighborhood(system: &DAESystem, surf: &Vec<OccurrenceRef>) -> (r: HashMap<u128, usize>)
    requires
        all_valid(system@, surf@),
    ensures
        forall|id: u128| #[trigger] r@.contains_key(id) <==> surfaced_count(system@, surf@, id) > 0,
        forall|id: u128| r@.contains_key(id) ==> #[trigger] r@[id] == surfaced_count(system@, surf@, id),
{
    let ghost s = system@;
    let mut r: HashMap<u128, usize> = HashMap::new();
    let mut i: usize = 0;
    while i < surf.len()
        invariant
            s == system@,
            all_valid(s, surf@),
            i <= surf@.len(),
            forall|id: u128| #[trigger] r@.contains_key(id) <==> surfaced_count(s, surf@.take(i as int), id) > 0,
            forall|id: u128| r@.contains_key(id) ==> #[trigger] r@[id] == surfaced_count(s, surf@.take(i as int), id),
        decreases surf.len() - i,
    {
        let x = surf[i];
        let id = system.get_neighborhood_for_occurrence(x).id;
        let ghost prev = surf@.take(i as int);
        proof {
            assert(surf@.take(i + 1).drop_last() == prev);
            assert(surf@.take(i + 1).last() == x);
            lemma_surfaced_count_bound(s, prev, id);
        }
        let c: usize = match r.get(&id) {
            Some(v) => *v,
            None => 0,
        };
        r.insert(id, c + 1);
        proof {
            assert forall|y: u128| #[trigger] r@.contains_key(y) <==> surfaced_count(s, surf@.take(i + 1), y) > 0 by {
                assert(surfaced_count(s, surf@.take(i + 1), y) == surfaced_count(s, prev, y) + if y == id {
                    1nat
                } else {
                    0nat
                });
            }
            assert forall|y: u128| r@.contains_key(y) implies #[trigger] r@[y] == surfaced_count(s, surf@.take(i + 1), y) by {
                assert(surfaced_count(s, surf@.take(i + 1), y) == surfaced_count(s, prev, y) + if y == id {
                    1nat
                } else {
                    0nat
                });
            }
        }
        i = i + 1;
    }
    assert(surf@.take(surf@.len() as int) == surf@);
    r
}

/// More than half of the occurrences of `nb` surfaced.
pub open spec fn nbhd_vivid(s: SystemView, surf: Seq<OccurrenceRef>, nb: NeighborhoodView) -> bool {
    nb.occurrences.len() > 0 && 2 * surfaced_count(s, surf, nb.id) > nb.occurrences.len()
}

/// Ids of the vivid neighborhoods among `ns`.
pub open spec fn vivid_ids_in(s: SystemView, surf: Seq<OccurrenceRef>, ns: Seq<NeighborhoodView>) -> Set<u128>
    decreases ns.len(),
{
    if ns.len() == 0 {
        Set::empty()
    } else {
        let prev = vivid_ids_in(s, surf, ns.drop_last());
        if nbhd_vivid(s, surf, ns.last()) {
            prev.insert(ns.last().id)
        } else {
            prev
        }
    }
}

/// Ids of the vivid neighborhoods of a sequence of episodes.
pub open spec fn vivid_nbhd_ids(s: SystemView, surf: Seq<OccurrenceRef>, eps: Seq<EpisodeView>) -> Set<u128>
    decreases eps.len(),
{
    if eps.len() == 0 {
        Set::empty()
    } else {
        vivid_nbhd_ids(s, surf, eps.drop_last()).union(vivid_ids_in(s, surf, eps.last().neighborhoods))
    }
}

/// Surfaced counts summed over the neighborhoods `ns` (by their ids).
pub open spec fn nbhds_surfaced(s: SystemView, surf: Seq<OccurrenceRef>, ns: Seq<NeighborhoodView>) -> int
    decreases ns.len(),
{
    if ns.len() == 0 {
        0
    } else {
        nbhds_surfaced(s, surf, ns.drop_last()) + surfaced_count(s, surf, ns.last().id)
    }
}

/// More than half of the occurrences of `ep` surfaced, and `ep` holds more
/// than half of the occurrences of the system (its mass exceeds one half).
pub open spec fn episode_vivid(s: SystemView, surf: Seq<OccurrenceRef>, ep: EpisodeView) -> bool {
    &&& ep.count() > 0
    &&& s.count() > 0
    &&& 2 * nbhds_surfaced(s, surf, ep.neighborhoods) > ep.count()
    &&& 2 * ep.count() > s.count()
}

/// Ids of the vivid episodes among `eps`.
pub open spec fn vivid_episode_ids(s: SystemView, surf: Seq<OccurrenceRef>, eps: Seq<EpisodeView>) -> Set<u128>
    decreases eps.len(),
{
    if eps.len() == 0 {
        Set::empty()
    } else {
        let prev = vivid_episode_ids(s, surf, eps.drop_last());
        if episode_vivid(s, surf, eps.last()) {
            prev.insert(eps.last().id)
        } else {
            prev
        }
    }
}

/// A sum over `k` neighborhoods is at most `k` times the number of surfaced
/// locations.
proof fn lemma_nbhds_surfaced_bound(s: SystemView, surf: Seq<OccurrenceRef>, ns: Seq<NeighborhoodView>)
    ensures
        0 <= nbhds_surfaced(s, surf, ns) <= ns.len() * surf.len(),
    decreases ns.len(),
{
    if ns.len() > 0 {
        lemma_nbhds_surfaced_bound(s, surf, ns.drop_last());
        lemma_surfaced_count_bound(s, surf, ns.last().id);
        assert((ns.len() - 1) * surf.len() + surf.len() == ns.len() * surf.len()) by (nonlinear_arith);
    }
}

/// The surfaced count of `id`, read from the counts by neighborhood.
fn count_of(counts: &HashMap<u128, usize>, id: u128, Ghost(s): Ghost<SystemView>, Ghost(surf): Ghost<Seq<OccurrenceRef>>) -> (c: usize)
    requires
        forall|y: u128| #[trigger] counts@.contains_key(y) <==> surfaced_count(s, surf, y) > 0,
        forall|y: u128| counts@.contains_key(y) ==> #[trigger] counts@[y] == surfaced_count(s, surf, y),
    ensures
        c == surfaced_count(s, surf, id),
{
    match counts.get(&id) {
        Some(v) => *v,
        None => 0,
    }
}

/// The vivid neighborhoods and episodes of the subconscious manifold.
fn vivid_sets(
    system: &DAESystem,
    counts: &HashMap<u128, usize>,
    total: usize,
    Ghost(surf): Ghost<Seq<OccurrenceRef>>,
) -> (r: (HashSet<u128>, HashSet<u128>))
    requires
        system@.count() <= usize::MAX,
        total == system@.count(),
        surf.len() <= usize::MAX,
        forall|y: u128| #[trigger] counts@.contains_key(y) <==> surfaced_count(system@, surf, y) > 0,
        forall|y: u128| counts@.contains_key(y) ==> #[trigger] counts@[y] == surfaced_count(system@, surf, y),
    ensures
        r.0@ == vivid_nbhd_ids(system@, surf, system@.episodes),
        r.1@ == vivid_episode_ids(system@, surf, system@.episodes),
{
    let ghost s = system@;
    let ghost eps = s.episodes;
    let mut vn: HashSet<u128> = HashSet::new();
    let mut ve: HashSet<u128> = HashSet::new();
    let mut e: usize = 0;
    proof {
        lemma_episodes_count_prefix(eps, eps.len() as int);
        crate::episode::lemma_occurrence_total_nonneg(s.conscious.neighborhoods);
    }
    while e < system.episodes.len()
        invariant
            s == system@,
            eps == s.episodes,
            e <= eps.len(),
            total == s.count(),
            s.count() <= usize::MAX,
            surf.len() <= usize::MAX,
            episodes_count(eps) <= s.count(),
            forall|y: u128| #[trigger] counts@.contains_key(y) <==> surfaced_count(s, surf, y) > 0,
            forall|y: u128| counts@.contains_key(y) ==> #[trigger] counts@[y] == surfaced_count(s, surf, y),
            vn@ == vivid_nbhd_ids(s, surf, eps.take(e as int)),
            ve@ == vivid_episode_ids(s, surf, eps.take(e as int)),
        decreases system.episodes.len() - e,
    {
        let ep = &system.episodes[e];
        let ghost ns = ep@.neighborhoods;
        proof {
            assert(eps[e as int] == ep@);
            lemma_episodes_count_prefix(eps, e as int);
            lemma_episodes_count_prefix(eps, e + 1);
            assert(eps.take(e + 1).drop_last() == eps.take(e as int));
            assert(eps.take(e + 1).last() == ep@);
        }
        let ep_count = ep.count();
        let ghost vn0 = vn@;
        let mut act: u128 = 0;
        let mut k: usize = 0;
        while k < ep.neighborhoods.len()
            invariant
                s == system@,
                ns == ep@.neighborhoods,
                k <= ns.len(),
                surf.len() <= usize::MAX,
                forall|y: u128| #[trigger] counts@.contains_key(y) <==> surfaced_count(s, surf, y) > 0,
                forall|y: u128| counts@.contains_key(y) ==> #[trigger] counts@[y] == surfaced_count(s, surf, y),
                act == nbhds_surfaced(s, surf, ns.take(k as int)),
                vn@ == vn0.union(vivid_ids_in(s, surf, ns.take(k as int))),
            decreases ep.neighborhoods.len() - k,
        {
            let nb = &ep.neighborhoods[k];
            proof {
                assert(ns[k as int] == nb@);
                assert(ns.take(k + 1).drop_last() == ns.take(k as int));
                assert(ns.take(k + 1).last() == nb@);
                lemma_nbhds_surfaced_bound(s, surf, ns.take(k + 1));
                assert(ns.take(k + 1).len() * surf.len() <= 0xFFFF_FFFF_FFFF_FFFFint * 0xFFFF_FFFF_FFFF_FFFFint) by (nonlinear_arith)
                    requires
                        ns.take(k + 1).len() <= usize::MAX,
                        usize::MAX <= 0xFFFF_FFFF_FFFF_FFFFint,
                        surf.len() <= usize::MAX,
                ;
            }
            let c = count_of(counts, nb.id, Ghost(s), Ghost(surf));
            act = act + c as u128;
            let len = nb.occurrences.len();
            if len > 0 && c > len / 2 {
                vn.insert(nb.id);
            }
            proof {
                assert(vn@ =~= vn0.union(vivid_ids_in(s, surf, ns.take(k + 1))));
            }
            k = k + 1;
        }
        proof {
            assert(ns.take(ns.len() as int) == ns);
            assert(vn@ =~= vivid_nbhd_ids(s, surf, eps.take(e + 1)));
        }
        if ep_count > 0 && total > 0 && act > (ep_count / 2) as u128 && ep_count > total / 2 {
            ve.insert(ep.id);
        }
        proof {
            assert(ve@ =~= vivid_episode_ids(s, surf, eps.take(e + 1)));
        }
        e = e + 1;
    }
    assert(eps.take(eps.len() as int) == eps);
    (vn, ve)
}

/// The locations of `surf` in neither a vivid neighborhood nor a vivid
/// episode, in order.
pub open spec fn fragments_of(s: SystemView, surf: Seq<OccurrenceRef>, vn: Set<u128>, ve: Set<u128>) -> Seq<
    OccurrenceRef,
>
    decreases surf.len(),
{
    if surf.len() == 0 {
        seq![]
    } else {
        let prev = fragments_of(s, surf.drop_last(), vn, ve);
        let r = surf.last();
        if !vn.contains(s.container(r).id) && !ve.contains(s.episode(r.episode_idx).id) {
            prev.push(r)
        } else {
            prev
        }
    }
}

/// The fragments are exactly the surfaced locations outside the vivid
/// structures: none lies in a vivid neighborhood or a vivid episode, and
/// every other surfaced location is one.
pub proof fn lemma_fragments_outside_vivid(s: SystemView, surf: Seq<OccurrenceRef>, vn: Set<u128>, ve: Set<u128>)
    ensures
        forall|r: OccurrenceRef| #[trigger]
            fragments_of(s, surf, vn, ve).contains(r) <==> (surf.contains(r) && !vn.contains(s.container(r).id)
                && !ve.contains(s.episode(r.episode_idx).id)),
        surf.no_duplicates() ==> fragments_of(s, surf, vn, ve).no_duplicates(),
    decreases surf.len(),
{
    if surf.len() > 0 {
        let init = surf.drop_last();
        let l = surf.last();
        lemma_fragments_outside_vivid(s, init, vn, ve);
        let prev = fragments_of(s, init, vn, ve);
        assert forall|r: OccurrenceRef| #[trigger]
            fragments_of(s, surf, vn, ve).contains(r) <==> (surf.contains(r) && !vn.contains(s.container(r).id)
                && !ve.contains(s.episode(r.episode_idx).id)) by {
            assert(surf.contains(r) <==> (init.contains(r) || r == l)) by {
                if surf.contains(r) {
                    let k = choose|k: int| 0 <= k < surf.len() && surf[k] == r;
                    if k < surf.len() - 1 {
                        assert(init[k] == r);
                    }
                }
                if init.contains(r) {
                    let k = choose|k: int| 0 <= k < init.len() && init[k] == r;
                    assert(surf[k] == r);
                }
                if r == l {
                    assert(surf[surf.len() - 1] == r);
                }
            }
            if !vn.contains(s.container(l).id) && !ve.contains(s.episode(l.episode_idx).id) {
                assert(prev.push(l).contains(r) <==> (prev.contains(r) || r == l)) by {
                    if prev.push(l).contains(r) {
                        let k = choose|k: int| 0 <= k < prev.push(l).len() && prev.push(l)[k] == r;
                        if k < prev.len() {
                            assert(prev[k] == r);
                        }
                    }
                    if prev.contains(r) {
                        let k = choose|k: int| 0 <= k < prev.len() && prev[k] == r;
                        assert(prev.push(l)[k] == r);
                    }
                    if r == l {
                        assert(prev.push(l)[prev.len() as int] == r);
                    }
                }
            }
        }
        if surf.no_duplicates() {
            assert(init.no_duplicates()) by {
                assert forall|a: int, b: int| 0 <= a < init.len() && 0 <= b < init.len() && a != b implies init[a]
                    != init[b] by {
                    assert(init[a] == surf[a] && init[b] == surf[b]);
                }
            }
            assert(!init.contains(l)) by {
                if init.contains(l) {
                    let k = choose|k: int| 0 <= k < init.len() && init[k] == l;
                    assert(surf[k] == surf[surf.len() - 1]);
                }
            }
            if !vn.contains(s.container(l).id) && !ve.contains(s.episode(l.episode_idx).id) {
                assert(!prev.contains(l));
                assert forall|a: int, b: int| 0 <= a < prev.push(l).len() && 0 <= b < prev.push(l).len() && a != b implies prev.push(
                    l,
                )[a] != prev.push(l)[b] by {
                    if a < prev.len() && b < prev.len() {
                    } else if a < prev.len() {
                        assert(prev.contains(prev[a]));
                    } else {
                        assert(prev.contains(prev[b]));
                    }
                }
            }
        }
    }
}

/// Surfaced content of a query.
pub struct SurfaceResult {
    /// Surfaced locations in neither a vivid neighborhood nor a vivid
    /// episode.
    pub fragments: Vec<OccurrenceRef>,
    /// Subconscious neighborhoods where more than half of the occurrences
    /// surfaced.
    pub vivid_neighborhood_ids: HashSet<u128>,
    /// Subconscious episodes where more than half of the occurrences
    /// surfaced and that hold more than half of the system's occurrences.
    pub vivid_episode_ids: HashSet<u128>,
    /// Every surfaced location, once, in order of first appearance.
    pub surfaced: Vec<OccurrenceRef>,
    /// Number of surfaced locations by neighborhood id.
    pub neighborhood_surfaced_counts: HashMap<u128, usize>,
}

/// The surfaced locations outside the vivid structures.
fn fragments_at(
    system: &DAESystem,
    surf: &Vec<OccurrenceRef>,
    vn: &HashSet<u128>,
    ve: &HashSet<u128>,
) -> (r: Vec<OccurrenceRef>)
    requires
        all_valid(system@, surf@),
    ensures
        r@ == fragments_of(system@, surf@, vn@, ve@),
{
    let mut r: Vec<OccurrenceRef> = Vec::new();
    let mut i: usize = 0;
    while i < surf.len()
        invariant
            all_valid(system@, surf@),
            i <= surf@.len(),
            r@ == fragments_of(system@, surf@.take(i as int), vn@, ve@),
        decreases surf.len() - i,
    {
        let x = surf[i];
        proof {
            assert(surf@.take(i + 1).drop_last() == surf@.take(i as int));
            assert(surf@.take(i + 1).last() == x);
        }
        let nb_id = system.get_neighborhood_for_occurrence(x).id;
        let ep_id = system.get_episode_for_occurrence(x).id;
        if !vn.contains(&nb_id) && !ve.contains(&ep_id) {
            r.push(x);
        }
        i = i + 1;
    }
    assert(surf@.take(surf@.len() as int) == surf@);
    r
}

/// Compute what surfaces from a query's activation: the subconscious
/// locations `positive` (those whose interference with the conscious
/// manifold is positive) and the subconscious locations whose word no
/// conscious location holds, each once; their counts by neighborhood; the
/// vivid neighborhoods and episodes; and the fragments outside them.
pub fn compute_surface(system: &DAESystem, positive: &Vec<OccurrenceRef>, activation: &ActivationResult) -> (r:
    SurfaceResult)
    requires
        system@.count() <= usize::MAX,
        all_valid(system@, positive@),
        all_valid(system@, activation.subconscious@),
        all_valid(system@, activation.conscious@),
    ensures
        r.surfaced@ == surfaced_refs(system@, positive@, activation.subconscious@, activation.conscious@),
        r.surfaced@.no_duplicates(),
        forall|x: OccurrenceRef| #[trigger] r.surfaced@.contains(x) <==> (positive@.contains(x) || (
            activation.subconscious@.contains(x) && is_novel(system@, activation.conscious@, x))),
        forall|id: u128| #[trigger] r.neighborhood_surfaced_counts@.contains_key(id)
            <==> surfaced_count(system@, r.surfaced@, id) > 0,
        forall|id: u128| r.neighborhood_surfaced_counts@.contains_key(id)
            ==> #[trigger] r.neighborhood_surfaced_counts@[id] == surfaced_count(system@, r.surfaced@, id),
        r.vivid_neighborhood_ids@ == vivid_nbhd_ids(system@, r.surfaced@, system@.episodes),
        r.vivid_episode_ids@ == vivid_episode_ids(system@, r.surfaced@, system@.episodes),
        r.fragments@ == fragments_of(
            system@,
            r.surfaced@,
            r.vivid_neighborhood_ids@,
            r.vivid_episode_ids@,
        ),
        forall|x: OccurrenceRef| #[trigger] r.fragments@.contains(x) <==> (r.surfaced@.contains(x)
            && !r.vivid_neighborhood_ids@.contains(system@.container(x).id) && !r.vivid_episode_ids@.contains(
            system@.episode(x.episode_idx).id,
        )),
{
    let ghost s = system@;
    let con_words = lowered_words_at(system, &activation.conscious);
    let novel = novel_at(system, &activation.subconscious, &con_words, Ghost(activation.conscious@));
    let mut candidates: Vec<OccurrenceRef> = positive.clone();
    let mut extra = novel;
    candidates.append(&mut extra);
    proof {
        assert(candidates@ == positive@ + novel_refs(s, activation.subconscious@, activation.conscious@));
    }
    let surfaced = first_appearances_of(&candidates);
    proof {
        lemma_novel_refs_subset(s, activation.subconscious@, activation.conscious@);
        lemma_first_appearances_subset(candidates@);
        assert forall|i: int| 0 <= i < surfaced@.len() implies s.has_occurrence(#[trigger] surfaced@[i]) by {
            let k = choose|k: int| 0 <= k < candidates@.len() && candidates@[k] == surfaced@[i];
            if k < positive@.len() {
                assert(candidates@[k] == positive@[k]);
            } else {
                let nv = novel_refs(s, activation.subconscious@, activation.conscious@);
                assert(candidates@[k] == nv[k - positive@.len()]);
                let m = choose|m: int|
                    0 <= m < activation.subconscious@.len() && activation.subconscious@[m] == nv[k
                        - positive@.len()];
                assert(s.has_occurrence(activation.subconscious@[m]));
            }
        }
    }
    proof {
        lemma_first_appearances(candidates@);
        lemma_novel_refs_contains(s, activation.subconscious@, activation.conscious@);
        let nv = novel_refs(s, activation.subconscious@, activation.conscious@);
        assert forall|x: OccurrenceRef| candidates@.contains(x) <==> (positive@.contains(x) || nv.contains(x)) by {
            if candidates@.contains(x) {
                let k = choose|k: int| 0 <= k < candidates@.len() && candidates@[k] == x;
                if k >= positive@.len() {
                    assert(nv[k - positive@.len()] == x);
                }
            }
            if positive@.contains(x) {
                let k = choose|k: int| 0 <= k < positive@.len() && positive@[k] == x;
                assert(candidates@[k] == x);
            }
            if nv.contains(x) {
                let k = choose|k: int| 0 <= k < nv.len() && nv[k] == x;
                assert(candidates@[positive@.len() + k] == x);
            }
        }
        assert forall|x: OccurrenceRef| #[trigger] surfaced@.contains(x) <==> (positive@.contains(x) || (
            activation.subconscious@.contains(x) && is_novel(s, activation.conscious@, x))) by {
            assert(surfaced@.contains(x) <==> candidates@.contains(x));
            assert(nv.contains(x) <==> (activation.subconscious@.contains(x) && is_novel(
                s,
                activation.conscious@,
                x,
            )));
        }
    }
    let counts = count_by_neighborhood(system, &surfaced);
    let total = system.n();
    assert(surfaced@.len() == surfaced.len());
    let (vn, ve) = vivid_sets(system, &counts, total, Ghost(surfaced@));
    let fragments = fragments_at(system, &surfaced, &vn, &ve);
    proof {
        lemma_fragments_outside_vivid(s, surfaced@, vn@, ve@);
    }
    SurfaceResult {
        fragments,
        vivid_neighborhood_ids: vn,
        vivid_episode_ids: ve,
        surfaced,
        neighborhood_surfaced_counts: counts,
    }
}

} // verus!
