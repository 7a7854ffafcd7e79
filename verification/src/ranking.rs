//! The discrete side of ranking recalled neighborhoods: which activated
//! locations belong to which neighborhood, and which subconscious
//! neighborhoods may be offered as novel connections. The scores
//! themselves are floating point and are computed by the caller over these
//! groups.
use vstd::prelude::*;

use crate::surface::{all_valid, is_novel, lowered_word};
use crate::system::{DAESystem, OccurrenceRef, SystemView};
use crate::text::{str_eq, to_lowercase};

verus! {

/// The neighborhood ids of the locations `refs`, each once, in order of
/// first appearance.
pub open spec fn group_ids(s: SystemView, refs: Seq<OccurrenceRef>) -> Seq<u128>
    decreases refs.len(),
{
    if refs.len() == 0 {
        seq![]
    } else {
        let prev = group_ids(s, refs.drop_last());
        let id = s.container(refs.last()).id;
        if prev.contains(id) {
            prev
        } else {
            prev.push(id)
        }
    }
}

/// The positions, in increasing order, of the locations of `refs` whose
/// neighborhood has id `id`.
pub open spec fn members_of(s: SystemView, refs: Seq<OccurrenceRef>, id: u128) -> Seq<usize>
    decreases refs.len(),
{
    if refs.len() == 0 {
        seq![]
    } else {
        let prev = members_of(s, refs.drop_last(), id);
        if s.container(refs.last()).id == id {
            prev.push((refs.len() - 1) as usize)
        } else {
            prev
        }
    }
}

/// The activated locations of one neighborhood.
pub struct NeighborhoodGroup {
    pub neighborhood_id: u128,
    /// Episode index of the first location (`usize::MAX`: conscious).
    pub episode_idx: usize,
    /// Neighborhood index of the first location.
    pub neighborhood_idx: usize,
    /// Positions of the neighborhood's locations among the locations given.
    pub members: Vec<usize>,
}

proof fn lemma_members_nonempty(s: SystemView, refs: Seq<OccurrenceRef>, id: u128)
    requires
        refs.len() <= usize::MAX,
    ensures
        group_ids(s, refs).contains(id) ==> members_of(s, refs, id).len() > 0,
        !group_ids(s, refs).contains(id) ==> members_of(s, refs, id).len() == 0,
        forall|j: int| 0 <= j < members_of(s, refs, id).len() ==> (#[trigger] members_of(s, refs, id)[j]) < refs.len()
            && s.container(refs[members_of(s, refs, id)[j] as int]).id == id,
    decreases refs.len(),
{
    if refs.len() > 0 {
        let init = refs.drop_last();
        lemma_members_nonempty(s, init, id);
        let prev = group_ids(s, init);
        let pid = s.container(refs.last()).id;
        assert forall|x: u128| prev.push(pid).contains(x) <==> (prev.contains(x) || x == pid) by {
            if prev.push(pid).contains(x) {
                let k = choose|k: int| 0 <= k < prev.push(pid).len() && prev.push(pid)[k] == x;
                if k < prev.len() {
                    assert(prev[k] == x);
                }
            }
            if prev.contains(x) {
                let k = choose|k: int| 0 <= k < prev.len() && prev[k] == x;
                assert(prev.push(pid)[k] == x);
            }
            if x == pid {
                assert(prev.push(pid)[prev.len() as int] == x);
            }
        }
        let m = members_of(s, init, id);
        assert forall|j: int| 0 <= j < members_of(s, refs, id).len() implies (#[trigger] members_of(s, refs, id)[j])
            < refs.len() && s.container(refs[members_of(s, refs, id)[j] as int]).id == id by {
            if j < m.len() {
                assert(members_of(s, refs, id)[j] == m[j]);
                assert(refs[m[j] as int] == init[m[j] as int]);
            } else {
                assert(refs[refs.len() - 1] == refs.last());
            }
        }
    }
}

proof fn lemma_group_ids_distinct(s: SystemView, refs: Seq<OccurrenceRef>)
    ensures
        group_ids(s, refs).no_duplicates(),
    decreases refs.len(),
{
    if refs.len() > 0 {
        lemma_group_ids_distinct(s, refs.drop_last());
        let prev = group_ids(s, refs.drop_last());
        let id = s.container(refs.last()).id;
        if !prev.contains(id) {
            assert forall|i: int, j: int| 0 <= i < prev.push(id).len() && 0 <= j < prev.push(id).len() && i != j implies prev.push(
                id,
            )[i] != prev.push(id)[j] by {
                if i < prev.len() && j < prev.len() {
                    assert(prev.push(id)[i] == prev[i] && prev.push(id)[j] == prev[j]);
                } else if i < prev.len() {
                    assert(prev.push(id)[i] == prev[i]);
                } else {
                    assert(prev.push(id)[j] == prev[j]);
                }
            }
        }
    }
}

proof fn lemma_members_cover(s: SystemView, refs: Seq<OccurrenceRef>, k: int)
    requires
        0 <= k < refs.len(),
        refs.len() <= usize::MAX,
    ensures
        members_of(s, refs, s.container(refs[k]).id).contains(k as usize),
        group_ids(s, refs).contains(s.container(refs[k]).id),
    decreases refs.len(),
{
    let init = refs.drop_last();
    let id = s.container(refs[k]).id;
    if k < refs.len() - 1 {
        assert(init[k] == refs[k]);
        lemma_members_cover(s, init, k);
        let m = members_of(s, init, id);
        let j = choose|j: int| 0 <= j < m.len() && m[j] == k as usize;
        if s.container(refs.last()).id == id {
            assert(m.push((refs.len() - 1) as usize)[j] == k as usize);
        }
        let g = group_ids(s, init);
        let gi = choose|gi: int| 0 <= gi < g.len() && g[gi] == id;
        if !g.contains(s.container(refs.last()).id) {
            assert(g.push(s.container(refs.last()).id)[gi] == id);
        }
    } else {
        assert(refs.last() == refs[k]);
        let m = members_of(s, init, id);
        assert(m.push(k as usize)[m.len() as int] == k as usize);
        let g = group_ids(s, init);
        if !g.contains(id) {
            assert(g.push(id)[g.len() as int] == id);
        }
    }
}

/// Grouping partitions the activated locations by neighborhood: the
/// groups' ids are distinct, every location is a member of the group of its
/// own neighborhood, and every member of a group lies in that group's
/// neighborhood.
pub proof fn lemma_groups_partition(s: SystemView, refs: Seq<OccurrenceRef>)
    requires
        refs.len() <= usize::MAX,
    ensures
        group_ids(s, refs).no_duplicates(),
        forall|k: int|
            0 <= k < refs.len() ==> group_ids(s, refs).contains(s.container(#[trigger] refs[k]).id)
                && members_of(s, refs, s.container(refs[k]).id).contains(k as usize),
        forall|id: u128, j: int|
            0 <= j < members_of(s, refs, id).len() ==> (#[trigger] members_of(s, refs, id)[j]) < refs.len()
                && s.container(refs[members_of(s, refs, id)[j] as int]).id == id,
{
    lemma_group_ids_distinct(s, refs);
    assert forall|k: int| 0 <= k < refs.len() implies group_ids(s, refs).contains(s.container(#[trigger] refs[k]).id)
        && members_of(s, refs, s.container(refs[k]).id).contains(k as usize) by {
        lemma_members_cover(s, refs, k);
    }
    assert forall|id: u128, j: int| 0 <= j < members_of(s, refs, id).len() implies (#[trigger] members_of(
        s,
        refs,
        id,
    )[j]) < refs.len() && s.container(refs[members_of(s, refs, id)[j] as int]).id == id by {
        lemma_members_nonempty(s, refs, id);
    }
}

/// Group activated locations by neighborhood: one group per neighborhood
/// id, in order of first appearance, with the positions of its locations
/// and the indexes of its first location.
pub fn group_by_neighborhood(system: &DAESystem, refs: &Vec<OccurrenceRef>) -> (r: Vec<NeighborhoodGroup>)
    requires
        all_valid(system@, refs@),
    ensures
        r@.len() == group_ids(system@, refs@).len(),
        forall|g: int|
            0 <= g < r@.len() ==> {
                let grp = #[trigger] r@[g];
                &&& grp.neighborhood_id == group_ids(system@, refs@)[g]
                &&& grp.members@ == members_of(system@, refs@, grp.neighborhood_id)
                &&& grp.members@.len() > 0
                &&& grp.episode_idx == refs@[grp.members@[0] as int].episode_idx
                &&& grp.neighborhood_idx == refs@[grp.members@[0] as int].neighborhood_idx
            },
{
    let ghost s = system@;
    let mut groups: Vec<NeighborhoodGroup> = Vec::new();
    let mut k: usize = 0;
    while k < refs.len()
        invariant
            s == system@,
            all_valid(s, refs@),
            k <= refs@.len(),
            groups@.len() == group_ids(s, refs@.take(k as int)).len(),
            forall|g: int|
                0 <= g < groups@.len() ==> {
                    let grp = #[trigger] groups@[g];
                    &&& grp.neighborhood_id == group_ids(s, refs@.take(k as int))[g]
                    &&& grp.members@ == members_of(s, refs@.take(k as int), grp.neighborhood_id)
                    &&& grp.members@.len() > 0
                    &&& grp.episode_idx == refs@[grp.members@[0] as int].episode_idx
                    &&& grp.neighborhood_idx == refs@[grp.members@[0] as int].neighborhood_idx
                },
        decreases refs.len() - k,
    {
        let x = refs[k];
        let id = system.get_neighborhood_for_occurrence(x).id;
        let ghost pre = refs@.take(k as int);
        let ghost post = refs@.take(k + 1);
        let ghost ids = group_ids(s, pre);
        proof {
            assert(post.drop_last() == pre);
            assert(post.last() == x);
            assert(s.has_occurrence(refs@[k as int]));
        }
        let mut g: usize = 0;
        let mut found = false;
        while g < groups.len()
            invariant_except_break
                !found,
            invariant
                groups@.len() == ids.len(),
                g <= groups@.len(),
                forall|h: int| 0 <= h < g ==> (#[trigger] groups@[h]).neighborhood_id != id,
                forall|h: int| 0 <= h < groups@.len() ==> (#[trigger] groups@[h]).neighborhood_id == ids[h],
            ensures
                g <= groups@.len(),
                found ==> g < groups@.len() && groups@[g as int].neighborhood_id == id,
                !found ==> g == groups@.len() && forall|h: int| 0 <= h < groups@.len() ==> (#[trigger] groups@[h]).neighborhood_id != id,
            decreases groups.len() - g,
        {
            if groups[g].neighborhood_id == id {
                found = true;
                break;
            }
            g = g + 1;
        }
        proof {
            lemma_members_nonempty(s, pre, id);
            if found {
                assert(ids.contains(id)) by {
                    assert(ids[g as int] == id);
                }
            } else {
                assert(!ids.contains(id)) by {
                    if ids.contains(id) {
                        let h = choose|h: int| 0 <= h < ids.len() && ids[h] == id;
                        assert(groups@[h].neighborhood_id == id);
                    }
                }
            }
        }
        if found {
            let ghost before = groups@;
            let mut grp = groups.remove(g);
            grp.members.push(k);
            groups.insert(g, grp);
            proof {
                assert forall|h: int| 0 <= h < groups@.len() implies {
                    let grp = #[trigger] groups@[h];
                    &&& grp.neighborhood_id == group_ids(s, post)[h]
                    &&& grp.members@ == members_of(s, post, grp.neighborhood_id)
                    &&& grp.members@.len() > 0
                    &&& grp.episode_idx == refs@[grp.members@[0] as int].episode_idx
                    &&& grp.neighborhood_idx == refs@[grp.members@[0] as int].neighborhood_idx
                } by {
                    let hid = groups@[h].neighborhood_id;
                    assert(group_ids(s, post) == ids);
                    if h != g {
                        assert(groups@[h] == before[h]);
                        assert(hid != id) by {
                            assert(ids[h] == hid && ids[g as int] == id);
                            assert(ids.no_duplicates()) by {
                                lemma_group_ids_distinct(s, pre);
                            }
                        }
                        assert(members_of(s, post, hid) == members_of(s, pre, hid));
                    } else {
                        assert(members_of(s, post, id) == members_of(s, pre, id).push(k));
                        assert(groups@[h].members@ == before[h].members@.push(k));
                        assert(groups@[h].members@[0] == before[h].members@[0]);
                    }
                }
            }
        } else {
            let mut members: Vec<usize> = Vec::new();
            members.push(k);
            groups.push(NeighborhoodGroup {
                neighborhood_id: id,
                episode_idx: x.episode_idx,
                neighborhood_idx: x.neighborhood_idx,
                members,
            });
            proof {
                assert(members_of(s, pre, id).len() == 0);
                assert(members_of(s, post, id) =~= seq![k]);
            }
        }
        k = k + 1;
    }
    assert(refs@.take(refs@.len() as int) == refs@);
    groups
}

/// A subconscious group may be offered as a novel connection: at most two
/// of its locations were activated and none of their words is held by an
/// activated conscious location (ignoring case).
pub open spec fn novel_eligible(
    s: SystemView,
    refs: Seq<OccurrenceRef>,
    members: Seq<usize>,
    con: Seq<OccurrenceRef>,
) -> bool {
    &&& members.len() <= 2
    &&& forall|j: int| 0 <= j < members.len() ==> is_novel(s, con, refs[#[trigger] members[j] as int])
}

/// Whether a group of the locations `refs`, with positions `members`, may be
/// offered as a novel connection, given the activated conscious locations.
pub fn is_novel_eligible(
    system: &DAESystem,
    refs: &Vec<OccurrenceRef>,
    members: &Vec<usize>,
    conscious: &Vec<OccurrenceRef>,
) -> (b: bool)
    requires
        all_valid(system@, refs@),
        all_valid(system@, conscious@),
        forall|j: int| 0 <= j < members@.len() ==> (#[trigger] members@[j]) < refs@.len(),
    ensures
        b == novel_eligible(system@, refs@, members@, conscious@),
{
    if members.len() > 2 {
        return false;
    }
    let ghost s = system@;
    let mut j: usize = 0;
    while j < members.len()
        invariant
            s == system@,
            all_valid(s, refs@),
            all_valid(s, conscious@),
            forall|i: int| 0 <= i < members@.len() ==> (#[trigger] members@[i]) < refs@.len(),
            j <= members@.len(),
            forall|i: int| 0 <= i < j ==> is_novel(s, conscious@, refs@[#[trigger] members@[i] as int]),
        decreases members.len() - j,
    {
        let r = refs[members[j]];
        let w = to_lowercase(system.get_occurrence(r).word.as_str());
        let mut c: usize = 0;
        while c < conscious.len()
            invariant
                s == system@,
                all_valid(s, conscious@),
                c <= conscious@.len(),
                j < members@.len(),
                forall|i: int| 0 <= i < members@.len() ==> (#[trigger] members@[i]) < refs@.len(),
                r == refs@[members@[j as int] as int],
                w@ == lowered_word(s, r),
                forall|i: int| 0 <= i < c ==> lowered_word(s, #[trigger] conscious@[i]) != lowered_word(s, r),
            decreases conscious.len() - c,
        {
            let cw = to_lowercase(system.get_occurrence(conscious[c]).word.as_str());
            if str_eq(cw.as_str(), w.as_str()) {
                proof {
                    assert(cw@ == lowered_word(s, conscious@[c as int]));
                    assert(lowered_word(s, conscious@[c as int]) == lowered_word(s, r));
                    assert(!is_novel(s, conscious@, r));
                    assert(r == refs@[members@[j as int] as int]);
                    assert(!is_novel(s, conscious@, refs@[members@[j as int] as int]));
                }
                return false;
            }
            c = c + 1;
        }
        j = j + 1;
    }
    true
}

/// A group is offered as a novel connection exactly when it has at most two
/// activated locations and none of their words, ignoring case, is the word
/// of an activated conscious location, whichever member holds it.
pub proof fn lemma_novel_eligible_exact(
    s: SystemView,
    refs: Seq<OccurrenceRef>,
    members: Seq<usize>,
    con: Seq<OccurrenceRef>,
)
    ensures
        novel_eligible(s, refs, members, con) <==> (members.len() <= 2 && forall|j: int, c: int|
            0 <= j < members.len() && 0 <= c < con.len() ==> lowered_word(s, refs[#[trigger] members[j] as int])
                != lowered_word(s, #[trigger] con[c])),
        forall|j: int, c: int|
            0 <= j < members.len() && 0 <= c < con.len() && lowered_word(s, refs[#[trigger] members[j] as int])
                == lowered_word(s, #[trigger] con[c]) ==> !novel_eligible(s, refs, members, con),
        members.len() > 2 ==> !novel_eligible(s, refs, members, con),
{
    if novel_eligible(s, refs, members, con) {
        assert forall|j: int, c: int|
            0 <= j < members.len() && 0 <= c < con.len() implies lowered_word(s, refs[#[trigger] members[j] as int])
            != lowered_word(s, #[trigger] con[c]) by {
            assert(is_novel(s, con, refs[members[j] as int]));
        }
    }
    if members.len() <= 2 && forall|j: int, c: int|
        0 <= j < members.len() && 0 <= c < con.len() ==> lowered_word(s, refs[#[trigger] members[j] as int])
            != lowered_word(s, #[trigger] con[c]) {
        assert forall|j: int| 0 <= j < members.len() implies is_novel(s, con, refs[#[trigger] members[j] as int]) by {
            assert forall|c: int| 0 <= c < con.len() implies lowered_word(s, #[trigger] con[c]) != lowered_word(
                s,
                refs[members[j] as int],
            ) by {
                assert(lowered_word(s, refs[members[j] as int]) != lowered_word(s, con[c]));
            }
        }
    }
}

} // verus!
