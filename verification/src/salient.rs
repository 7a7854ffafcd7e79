//! Salient content: `<salient>…</salient>` spans, and the neighborhood type
//! that a `DECISION:` or `PREFERENCE:` prefix announces.
use vstd::prelude::*;

use crate::episode::EpisodeView;
use crate::neighborhood::{NeighborhoodType, NeighborhoodView};
use crate::system::{conscious_entry, DAESystem, SystemView};
use crate::text::{
    chars_of, contains_seq, has_prefix, lemma_next_occurrence_bounds, next_occurrence,
    next_occurrence_exec, occurs_at, occurs_at_exec, slice_chars, string_from_chars, trim_chars,
    trim_ws, TrimClass,
};

verus! {

/// The opening tag `<salient>`.
pub open spec fn salient_open() -> Seq<char> {
    seq!['<', 's', 'a', 'l', 'i', 'e', 'n', 't', '>']
}

/// The closing tag `</salient>`.
pub open spec fn salient_close() -> Seq<char> {
    seq!['<', '/', 's', 'a', 'l', 'i', 'e', 'n', 't', '>']
}

/// The contents of the tagged spans of `s` from position `pos` on: each
/// opening tag with the first closing tag after it; spans do not overlap, and
/// an opening tag with no closing tag after it ends the search.
pub open spec fn salient_spans(s: Seq<char>, pos: int) -> Seq<Seq<char>>
    decreases s.len() + 1 - pos,
{
    if pos < 0 || pos > s.len() {
        seq![]
    } else {
        let p = next_occurrence(s, salient_open(), pos);
        if p < 0 {
            seq![]
        } else {
            let q = next_occurrence(s, salient_close(), p + 9);
            if q < 0 {
                seq![]
            } else {
                proof {
                    lemma_next_occurrence_bounds(s, salient_open(), pos);
                    lemma_next_occurrence_bounds(s, salient_close(), p + 9);
                }
                seq![s.subrange(p + 9, q)] + salient_spans(s, q + 10)
            }
        }
    }
}

/// An occurrence of `p` in `a + b` at or after `a.len()` is one in `b`.
proof fn lemma_next_occurrence_shift(a: Seq<char>, b: Seq<char>, p: Seq<char>, j: int)
    requires
        0 <= j,
    ensures
        next_occurrence(a + b, p, a.len() + j) == if next_occurrence(b, p, j) < 0 {
            -1
        } else {
            a.len() + next_occurrence(b, p, j)
        },
    decreases b.len() + 1 - j,
{
    if j <= b.len() {
        let ab = a + b;
        if a.len() + j + p.len() <= ab.len() {
            assert(ab.subrange(a.len() + j, a.len() + j + p.len()) =~= b.subrange(j, j + p.len()));
        }
        assert(occurs_at(ab, p, a.len() + j) == occurs_at(b, p, j));
        if !occurs_at(b, p, j) {
            lemma_next_occurrence_shift(a, b, p, j + 1);
        }
    }
}

/// The spans of `a + b` from a position in `b` are those of `b`.
proof fn lemma_salient_spans_shift(a: Seq<char>, b: Seq<char>, j: int)
    requires
        0 <= j,
    ensures
        salient_spans(a + b, a.len() + j) == salient_spans(b, j),
    decreases b.len() + 1 - j,
{
    if j <= b.len() {
        let ab = a + b;
        lemma_next_occurrence_shift(a, b, salient_open(), j);
        let p = next_occurrence(b, salient_open(), j);
        if p >= 0 {
            lemma_next_occurrence_bounds(b, salient_open(), j);
            lemma_next_occurrence_shift(a, b, salient_close(), p + 9);
            let q = next_occurrence(b, salient_close(), p + 9);
            if q >= 0 {
                lemma_next_occurrence_bounds(b, salient_close(), p + 9);
                assert(ab.subrange(a.len() + p + 9, a.len() + q) =~= b.subrange(p + 9, q));
                lemma_salient_spans_shift(a, b, q + 10);
                assert(a.len() + q + 10 == a.len() + (q + 10));
            }
        }
    }
}

/// A tag cannot start before `w` and run into it when `w` begins with the
/// tag's only `<`.
proof fn lemma_no_straddle(s: Seq<char>, tag: Seq<char>, w: int, i: int)
    requires
        0 <= i < w < i + tag.len(),
        s[w] == '<',
        forall|k: int| 0 < k < tag.len() ==> tag[k] != '<',
    ensures
        !occurs_at(s, tag, i),
{
    if occurs_at(s, tag, i) {
        assert(s.subrange(i, i + tag.len())[w - i] == s[w]);
    }
}

/// A tagged span is reported with exactly the text between its tags,
/// whatever that text holds (line breaks included), and the search goes on
/// after its closing tag: for text `p` holding no opening tag and content
/// `t` holding no closing tag, the spans of
/// `p + "<salient>" + t + "</salient>" + rest` are `t` followed by the spans
/// of `rest`.
pub proof fn lemma_salient_tagged(p: Seq<char>, t: Seq<char>, rest: Seq<char>)
    requires
        !contains_seq(p, salient_open()),
        !contains_seq(t, salient_close()),
    ensures
        salient_spans(p + salient_open() + t + salient_close() + rest, 0) == seq![t] + salient_spans(rest, 0),
{
    let o = salient_open();
    let c = salient_close();
    let head = p + o + t + c;
    let s = head + rest;
    let po = p.len() as int;
    let cs = po + 9 + t.len();
    assert(s.len() == po + 9 + t.len() + 10 + rest.len());
    assert(s.subrange(po, po + 9) =~= o);
    assert(occurs_at(s, o, po));
    assert forall|i: int| 0 <= i < po implies !occurs_at(s, o, i) by {
        if i + 9 <= po {
            if occurs_at(s, o, i) {
                assert(p.subrange(i, i + 9) =~= s.subrange(i, i + 9));
                assert(occurs_at(p, o, i));
            }
        } else {
            assert(s[po] == '<');
            lemma_no_straddle(s, o, po, i);
        }
    }
    crate::text::lemma_next_occurrence_found(s, o, 0, po);
    assert(s.subrange(cs, cs + 10) =~= c);
    assert(occurs_at(s, c, cs));
    assert forall|i: int| po + 9 <= i < cs implies !occurs_at(s, c, i) by {
        if i + 10 <= cs {
            if occurs_at(s, c, i) {
                assert(t.subrange(i - po - 9, i - po + 1) =~= s.subrange(i, i + 10));
                assert(occurs_at(t, c, i - po - 9));
            }
        } else {
            assert(s[cs] == '<');
            lemma_no_straddle(s, c, cs, i);
        }
    }
    crate::text::lemma_next_occurrence_found(s, c, po + 9, cs);
    assert(s.subrange(po + 9, cs) =~= t);
    lemma_salient_spans_shift(head, rest, 0);
    assert(head.len() == cs + 10);
}

/// The prefix `DECISION:`.
pub open spec fn decision_prefix() -> Seq<char> {
    seq!['D', 'E', 'C', 'I', 'S', 'I', 'O', 'N', ':']
}

/// The prefix `PREFERENCE:`.
pub open spec fn preference_prefix() -> Seq<char> {
    seq!['P', 'R', 'E', 'F', 'E', 'R', 'E', 'N', 'C', 'E', ':']
}

/// The type that the text announces and the text without the announcement:
/// `DECISION:` and `PREFERENCE:` prefixes (after trimming) give decisions and
/// preferences; any other text is an insight.
pub open spec fn detected_type(text: Seq<char>) -> (NeighborhoodType, Seq<char>) {
    let t = trim_ws(text);
    if has_prefix(t, decision_prefix()) {
        (NeighborhoodType::Decision, trim_ws(t.skip(9)))
    } else if has_prefix(t, preference_prefix()) {
        (NeighborhoodType::Preference, trim_ws(t.skip(11)))
    } else {
        (NeighborhoodType::Insight, t)
    }
}

/// Detect the neighborhood type from a `DECISION:` or `PREFERENCE:` prefix;
/// returns the type and the text with the prefix stripped, trimmed.
pub fn detect_neighborhood_type(text: &str) -> (r: (NeighborhoodType, String))
    ensures
        r.0 == detected_type(text@).0,
        r.1@ == detected_type(text@).1,
{
    let chars = chars_of(text);
    let t = trim_chars(&chars, &TrimClass::Whitespace);
    let decision = vec!['D', 'E', 'C', 'I', 'S', 'I', 'O', 'N', ':'];
    let preference = vec!['P', 'R', 'E', 'F', 'E', 'R', 'E', 'N', 'C', 'E', ':'];
    if occurs_at_exec(&t, decision.as_slice(), 0) {
        let rest = slice_chars(&t, 9, t.len());
        assert(rest@ == t@.skip(9));
        let clean = trim_chars(&rest, &TrimClass::Whitespace);
        (NeighborhoodType::Decision, string_from_chars(clean.as_slice()))
    } else if occurs_at_exec(&t, preference.as_slice(), 0) {
        let rest = slice_chars(&t, 11, t.len());
        assert(rest@ == t@.skip(11));
        let clean = trim_chars(&rest, &TrimClass::Whitespace);
        (NeighborhoodType::Preference, string_from_chars(clean.as_slice()))
    } else {
        (NeighborhoodType::Insight, string_from_chars(t.as_slice()))
    }
}

/// The contents of the tagged spans of `s`, in order, as vectors.
pub fn salient_span_chars(s: &Vec<char>) -> (spans: Vec<Vec<char>>)
    ensures
        spans@.len() == salient_spans(s@, 0).len(),
        forall|k: int| 0 <= k < spans@.len() ==> (#[trigger] spans@[k])@ == salient_spans(s@, 0)[k],
{
    let open = vec!['<', 's', 'a', 'l', 'i', 'e', 'n', 't', '>'];
    let close = vec!['<', '/', 's', 'a', 'l', 'i', 'e', 'n', 't', '>'];
    let mut spans: Vec<Vec<char>> = Vec::new();
    let mut pos: usize = 0;
    let ghost mut done: Seq<Seq<char>> = seq![];
    assert(salient_open().len() == 9 && salient_close().len() == 10);
    let slen = s.len();
    loop
        invariant
            slen == s@.len(),
            open@ == salient_open(),
            close@ == salient_close(),
            salient_open().len() == 9,
            salient_close().len() == 10,
            pos <= s@.len(),
            spans@.len() == done.len(),
            forall|k: int| 0 <= k < spans@.len() ==> (#[trigger] spans@[k])@ == done[k],
            done + salient_spans(s@, pos as int) == salient_spans(s@, 0),
        ensures
            spans@.len() == done.len(),
            forall|k: int| 0 <= k < spans@.len() ==> (#[trigger] spans@[k])@ == done[k],
            done == salient_spans(s@, 0),
        decreases s@.len() - pos,
    {
        let p = match next_occurrence_exec(s, open.as_slice(), pos) {
            Some(p) => p,
            None => {
                assert(salient_spans(s@, pos as int) =~= seq![]);
                assert(done + seq![] =~= done);
                break;
            },
        };
        proof {
            lemma_next_occurrence_bounds(s@, salient_open(), pos as int);
        }
        let q = match next_occurrence_exec(s, close.as_slice(), p + 9) {
            Some(q) => q,
            None => {
                assert(salient_spans(s@, pos as int) =~= seq![]);
                assert(done + seq![] =~= done);
                break;
            },
        };
        proof {
            lemma_next_occurrence_bounds(s@, salient_close(), p + 9);
        }
        let span = slice_chars(s, p + 9, q);
        let ghost before = done;
        proof {
            done = done.push(span@);
            assert(before + salient_spans(s@, pos as int) =~= done + salient_spans(s@, q + 10));
        }
        spans.push(span);
        pos = q + 10;
    }
    spans
}

/// The system after adding the spans `spans` to the conscious episode as
/// typed neighborhoods, in order: what `extract_salient` does.
pub open spec fn added_salient(
    old_sys: SystemView,
    new_sys: SystemView,
    spans: Seq<Seq<char>>,
) -> bool {
    let old_n = old_sys.conscious.neighborhoods.len();
    &&& new_sys.episodes == old_sys.episodes
    &&& new_sys.agent_name == old_sys.agent_name
    &&& new_sys.conscious.neighborhoods.len() == old_n + spans.len()
    &&& new_sys.conscious.neighborhoods.take(old_n as int) == old_sys.conscious.neighborhoods
    &&& new_sys.conscious == (EpisodeView {
        neighborhoods: new_sys.conscious.neighborhoods,
        ..old_sys.conscious
    })
    &&& forall|k: int|
        0 <= k < spans.len() ==> conscious_entry(
            #[trigger] new_sys.conscious.neighborhoods[old_n + k],
            new_sys.conscious.neighborhoods[old_n + k].id,
            detected_type(spans[k]).1,
            detected_type(spans[k]).0,
        )
}

/// Add each `<salient>` span of `text` to the conscious episode, typed by
/// its prefix; returns the number of spans.
pub fn extract_salient(system: &mut DAESystem, text: &str) -> (count: u32)
    requires
        salient_spans(text@, 0).len() <= u32::MAX,
    ensures
        final(system).wf(),
        count == salient_spans(text@, 0).len(),
        added_salient(old(system)@, final(system)@, salient_spans(text@, 0)),
{
    let chars = chars_of(text);
    let spans = salient_span_chars(&chars);
    let ghost all = salient_spans(text@, 0);
    let ghost start = system@;
    let mut count: u32 = 0;
    let mut k: usize = 0;
    system.mark_dirty();
    assert(start.conscious.neighborhoods.take(start.conscious.neighborhoods.len() as int)
        =~= start.conscious.neighborhoods);
    while k < spans.len()
        invariant
            k <= spans@.len(),
            spans@.len() == all.len(),
            all.len() <= u32::MAX,
            forall|j: int| 0 <= j < spans@.len() ==> (#[trigger] spans@[j])@ == all[j],
            count == k,
            system.wf(),
            added_salient(start, system@, all.take(k as int)),
        decreases spans.len() - k,
    {
        let span = string_from_chars(spans[k].as_slice());
        let (nbhd_type, clean_text) = detect_neighborhood_type(span.as_str());
        let ghost before = system@;
        system.add_to_conscious_typed(clean_text.as_str(), nbhd_type);
        proof {
            let old_n = start.conscious.neighborhoods.len();
            let ns = system@.conscious.neighborhoods;
            assert(ns.take(old_n as int) =~= before.conscious.neighborhoods.take(old_n as int));
            assert forall|j: int| 0 <= j < k + 1 implies conscious_entry(
                #[trigger] ns[old_n + j],
                ns[old_n + j].id,
                detected_type(all.take(k + 1)[j]).1,
                detected_type(all.take(k + 1)[j]).0,
            ) by {
                if j < k {
                    assert(ns[old_n + j] == before.conscious.neighborhoods[old_n + j]);
                    assert(all.take(k + 1)[j] == all.take(k as int)[j]);
                } else {
                    assert(all.take(k + 1)[j] == all[k as int]);
                }
            }
        }
        count = count + 1;
        k = k + 1;
    }
    assert(all.take(all.len() as int) == all);
    count
}

/// Add `text` to the conscious episode, typed by its prefix; returns the new
/// neighborhood's id.
pub fn mark_salient_typed(system: &mut DAESystem, text: &str) -> (id: u128)
    ensures
        final(system).wf(),
        final(system)@.episodes == old(system)@.episodes,
        final(system)@.agent_name == old(system)@.agent_name,
        final(system)@.conscious == (EpisodeView {
            neighborhoods: old(system)@.conscious.neighborhoods.push(
                final(system)@.conscious.neighborhoods.last(),
            ),
            ..old(system)@.conscious
        }),
        conscious_entry(
            final(system)@.conscious.neighborhoods.last(),
            id,
            detected_type(text@).1,
            detected_type(text@).0,
        ),
{
    let (nbhd_type, clean_text) = detect_neighborhood_type(text);
    system.add_to_conscious_typed(clean_text.as_str(), nbhd_type)
}

} // verus!
