//! Batch activation: the activation step of several queries at once.
//!
//! Each distinct word of the batch is looked up once; a word that occurs in
//! N of the queries is activated N times, as N separate queries would. The
//! per-query activation subsets are then read off the shared lookups.
//! Drift, interference, surface and composition run afterwards on what this
//! returns.
use vstd::prelude::*;

use crate::query::{
    dedup_lower,
    activated_all, conscious_refs_all, count_matching, dedup_tokens, lemma_activated_all,
    lemma_refs_all_valid, lowered, query_words, subconscious_refs_all,
};
use crate::system::{
    lemma_headroom_activate, lemma_same_layout_occurrence, lemma_same_layout_refs, lemma_word_refs,
    same_layout, DAESystem, OccurrenceRef, SystemView,
};
use crate::text::{lowercase, str_eq, strings_view, to_lowercase};
use crate::tokenizer::{tokenize, tokens_of};

verus! {

/// A single query in a batch.
pub struct BatchQueryRequest {
    /// The query text.
    pub query: String,
    /// Token budget for this query's context; `None` means the default.
    pub max_tokens: Option<usize>,
}

/// Default token budget of a batch query's context.
pub const DEFAULT_BATCH_MAX_TOKENS: usize = 4096;

impl BatchQueryRequest {
    /// The token budget of this query's context.
    pub fn budget_tokens(&self) -> (t: usize)
        ensures
            t == match self.max_tokens {
                Some(m) => m,
                None => DEFAULT_BATCH_MAX_TOKENS,
            },
    {
        match self.max_tokens {
            Some(m) => m,
            None => DEFAULT_BATCH_MAX_TOKENS,
        }
    }
}

/// The distinct lowercase words of one query of a batch.
pub open spec fn batch_words(q: Seq<char>) -> Seq<Seq<char>> {
    lowered(query_words(q))
}

/// `ws` with exact repeats dropped, first appearances kept.
pub open spec fn dedup_exact(ws: Seq<Seq<char>>) -> Seq<Seq<char>>
    decreases ws.len(),
{
    if ws.len() == 0 {
        seq![]
    } else {
        let prev = dedup_exact(ws.drop_last());
        if prev.contains(ws.last()) {
            prev
        } else {
            prev.push(ws.last())
        }
    }
}

/// The words of all the queries, query by query.
pub open spec fn all_batch_words(qs: Seq<Seq<char>>) -> Seq<Seq<char>>
    decreases qs.len(),
{
    if qs.len() == 0 {
        seq![]
    } else {
        all_batch_words(qs.drop_last()) + batch_words(qs.last())
    }
}

/// The distinct words of the batch, in order of first appearance.
pub open spec fn batch_union(qs: Seq<Seq<char>>) -> Seq<Seq<char>> {
    dedup_exact(all_batch_words(qs))
}

/// Number of queries whose words include `w`.
pub open spec fn count_containing(qs: Seq<Seq<char>>, w: Seq<char>) -> nat
    decreases qs.len(),
{
    if qs.len() == 0 {
        0
    } else {
        count_containing(qs.drop_last(), w) + if batch_words(qs.last()).contains(w) {
            1nat
        } else {
            0nat
        }
    }
}

/// The activations that the batch performs: each distinct word, in order,
/// once per query that holds it.
pub open spec fn batch_activations(qs: Seq<Seq<char>>, union: Seq<Seq<char>>) -> Seq<Seq<char>>
    decreases union.len(),
{
    if union.len() == 0 {
        seq![]
    } else {
        batch_activations(qs, union.drop_last()) + Seq::new(
            count_containing(qs, union.last()),
            |j: int| crate::text::lowercase(union.last()),
        )
    }
}

/// The ids of the occurrences at `refs`, in `s`.
pub open spec fn ids_at(s: SystemView, refs: Seq<OccurrenceRef>) -> Seq<u128> {
    refs.map_values(|r: OccurrenceRef| s.occurrence(r).id)
}

/// `ids` with each id repeated `m` times in place.
pub open spec fn repeated_ids(ids: Seq<u128>, m: nat) -> Seq<u128>
    decreases ids.len(),
{
    if ids.len() == 0 {
        seq![]
    } else {
        repeated_ids(ids.drop_last(), m) + Seq::new(m, |j: int| ids.last())
    }
}

/// The activation record of the batch: for each distinct word, the ids of
/// its occurrences once, then each id once more per further query holding
/// the word.
pub open spec fn batch_ids(s: SystemView, qs: Seq<Seq<char>>, union: Seq<Seq<char>>) -> Seq<u128>
    decreases union.len(),
{
    if union.len() == 0 {
        seq![]
    } else {
        let w = crate::text::lowercase(union.last());
        let ids = ids_at(s, s.subconscious_refs(w) + s.conscious_refs(w));
        let n = count_containing(qs, union.last());
        batch_ids(s, qs, union.drop_last()) + ids + repeated_ids(
            ids,
            if n >= 1 {
                (n - 1) as nat
            } else {
                0nat
            },
        )
    }
}

/// Activation step of a batch of queries.
pub struct BatchActivation {
    /// Distinct lowercase words of each query.
    pub query_words: Vec<Vec<String>>,
    /// Distinct words of the batch, in order of first appearance.
    pub union_words: Vec<String>,
    /// Subconscious locations of the distinct words, word by word.
    pub subconscious: Vec<OccurrenceRef>,
    /// Conscious locations of the distinct words, word by word.
    pub conscious: Vec<OccurrenceRef>,
    /// Ids of the activated occurrences, once per activation.
    pub activated_ids: Vec<u128>,
    /// Subconscious locations of each query's words.
    pub query_subconscious: Vec<Vec<OccurrenceRef>>,
    /// Conscious locations of each query's words.
    pub query_conscious: Vec<Vec<OccurrenceRef>>,
}

/// The query texts of `requests`.
pub open spec fn request_queries(requests: Seq<BatchQueryRequest>) -> Seq<Seq<char>> {
    requests.map_values(|r: BatchQueryRequest| r.query@)
}

/// The distinct lowercase words of a query.
fn lowered_words(query: &str) -> (w: Vec<String>)
    ensures
        strings_view(w@) == batch_words(query@),
{
    let tokens = tokenize(query);
    let unique = dedup_tokens(&tokens);
    let ghost uv = strings_view(unique@);
    let mut w: Vec<String> = Vec::new();
    let mut i: usize = 0;
    while i < unique.len()
        invariant
            i <= unique@.len(),
            uv == strings_view(unique@),
            strings_view(w@) == lowered(uv.take(i as int)),
        decreases unique.len() - i,
    {
        let l = to_lowercase(unique[i].as_str());
        let ghost before = strings_view(w@);
        w.push(l);
        assert(uv[i as int] == unique@[i as int]@);
        assert(strings_view(w@) =~= before.push(crate::text::lowercase(uv[i as int])));
        assert(lowered(uv.take(i + 1)) =~= lowered(uv.take(i as int)).push(
            crate::text::lowercase(uv[i as int]),
        ));
        i = i + 1;
    }
    assert(uv.take(uv.len() as int) == uv);
    w
}

/// The distinct words of a batch, in order of first appearance.
fn union_words_of(requests: &Vec<BatchQueryRequest>) -> (u: Vec<String>)
    ensures
        strings_view(u@) == batch_union(request_queries(requests@)),
{
    let ghost qs = request_queries(requests@);
    let mut union_words: Vec<String> = Vec::new();
    let mut i: usize = 0;
    assert(all_batch_words(qs.take(0)) =~= seq![]);
    while i < requests.len()
        invariant
            i <= requests@.len(),
            qs == request_queries(requests@),
            strings_view(union_words@) == dedup_exact(all_batch_words(qs.take(i as int))),
        decreases requests.len() - i,
    {
        let words = lowered_words(requests[i].query.as_str());
        proof {
            assert(qs[i as int] == requests@[i as int].query@);
            assert(qs.take(i + 1).drop_last() == qs.take(i as int));
            assert(qs.take(i + 1).last() == qs[i as int]);
        }
        extend_dedup(&mut union_words, &words, Ghost(all_batch_words(qs.take(i as int))));
        i = i + 1;
    }
    assert(qs.take(qs.len() as int) == qs);
    union_words
}

/// Whether `w` is one of `words`.
fn contains_word(words: &Vec<String>, w: &str) -> (b: bool)
    ensures
        b == strings_view(words@).contains(w@),
{
    let mut i: usize = 0;
    while i < words.len()
        invariant
            i <= words@.len(),
            forall|j: int| 0 <= j < i ==> words@[j]@ != w@,
        decreases words.len() - i,
    {
        if str_eq(words[i].as_str(), w) {
            assert(strings_view(words@)[i as int] == w@);
            return true;
        }
        i = i + 1;
    }
    assert forall|j: int| 0 <= j < strings_view(words@).len() implies strings_view(words@)[j] != w@ by {
        assert(strings_view(words@)[j] == words@[j]@);
    }
    false
}

/// Append to `acc` the words of `words` that it does not hold yet.
fn extend_dedup(acc: &mut Vec<String>, words: &Vec<String>, Ghost(x): Ghost<Seq<Seq<char>>>)
    requires
        strings_view(old(acc)@) == dedup_exact(x),
    ensures
        strings_view(final(acc)@) == dedup_exact(x + strings_view(words@)),
{
    let ghost wv = strings_view(words@);
    let mut i: usize = 0;
    assert(x + wv.take(0) =~= x);
    while i < words.len()
        invariant
            i <= words@.len(),
            wv == strings_view(words@),
            strings_view(acc@) == dedup_exact(x + wv.take(i as int)),
        decreases words.len() - i,
    {
        assert((x + wv.take(i + 1)).drop_last() =~= x + wv.take(i as int));
        assert((x + wv.take(i + 1)).last() == words@[i as int]@);
        if !contains_word(acc, words[i].as_str()) {
            let ghost before = strings_view(acc@);
            acc.push(words[i].clone());
            assert(strings_view(acc@) =~= before.push(words@[i as int]@));
        }
        i = i + 1;
    }
    assert(wv.take(wv.len() as int) == wv);
}

/// Number of queries, among those whose words `query_words` lists, that
/// hold `w`.
fn count_queries_with(query_words: &Vec<Vec<String>>, w: &str, Ghost(qs): Ghost<Seq<Seq<char>>>) -> (n: usize)
    requires
        query_words@.len() == qs.len(),
        forall|j: int|
            0 <= j < qs.len() ==> strings_view((#[trigger] query_words@[j])@) == batch_words(qs[j]),
    ensures
        n == count_containing(qs, w@),
{
    let mut n: usize = 0;
    let mut i: usize = 0;
    while i < query_words.len()
        invariant
            i <= qs.len(),
            query_words@.len() == qs.len(),
            forall|j: int|
                0 <= j < qs.len() ==> strings_view((#[trigger] query_words@[j])@) == batch_words(qs[j]),
            n == count_containing(qs.take(i as int), w@),
            n <= i,
        decreases query_words.len() - i,
    {
        assert(qs.take(i + 1).drop_last() == qs.take(i as int));
        assert(qs.take(i + 1).last() == qs[i as int]);
        if contains_word(&query_words[i], w) {
            n = n + 1;
        }
        i = i + 1;
    }
    assert(qs.take(qs.len() as int) == qs);
    n
}

/// Every activation count is bounded by the number of queries.
proof fn lemma_count_containing_bound(qs: Seq<Seq<char>>, w: Seq<char>)
    ensures
        count_containing(qs, w) <= qs.len(),
    decreases qs.len(),
{
    if qs.len() > 0 {
        lemma_count_containing_bound(qs.drop_last(), w);
    }
}

/// A word that some query holds is counted at least once.
proof fn lemma_count_containing_pos(qs: Seq<Seq<char>>, w: Seq<char>, i: int)
    requires
        0 <= i < qs.len(),
        batch_words(qs[i]).contains(w),
    ensures
        count_containing(qs, w) >= 1,
    decreases qs.len(),
{
    if i < qs.len() - 1 {
        assert(qs.drop_last()[i] == qs[i]);
        lemma_count_containing_pos(qs.drop_last(), w, i);
    }
}

/// Every word of the batch belongs to some query.
proof fn lemma_all_batch_words_origin(qs: Seq<Seq<char>>, w: Seq<char>)
    requires
        all_batch_words(qs).contains(w),
    ensures
        exists|i: int| 0 <= i < qs.len() && batch_words(qs[i]).contains(w),
    decreases qs.len(),
{
    let prev = all_batch_words(qs.drop_last());
    let last = batch_words(qs.last());
    let k = choose|k: int| 0 <= k < all_batch_words(qs).len() && all_batch_words(qs)[k] == w;
    if k < prev.len() {
        assert(all_batch_words(qs)[k] == prev[k]);
        lemma_all_batch_words_origin(qs.drop_last(), w);
        let i = choose|i: int| 0 <= i < qs.drop_last().len() && batch_words(qs.drop_last()[i]).contains(w);
        assert(qs.drop_last()[i] == qs[i]);
    } else {
        assert(all_batch_words(qs)[k] == last[k - prev.len()]);
        assert(batch_words(qs[qs.len() - 1]).contains(w));
    }
}

/// Deduplication keeps only words of its input.
proof fn lemma_dedup_exact_subset(ws: Seq<Seq<char>>, w: Seq<char>)
    requires
        dedup_exact(ws).contains(w),
    ensures
        ws.contains(w),
    decreases ws.len(),
{
    let prev = dedup_exact(ws.drop_last());
    if prev.contains(w) {
        lemma_dedup_exact_subset(ws.drop_last(), w);
        let k = choose|k: int| 0 <= k < ws.drop_last().len() && ws.drop_last()[k] == w;
        assert(ws[k] == w);
    } else {
        assert(w == ws.last());
        assert(ws[ws.len() - 1] == w);
    }
}

/// Every distinct word of the batch is held by at least one query.
proof fn lemma_union_counted(qs: Seq<Seq<char>>, k: int)
    requires
        0 <= k < batch_union(qs).len(),
    ensures
        count_containing(qs, batch_union(qs)[k]) >= 1,
{
    let w = batch_union(qs)[k];
    assert(batch_union(qs).contains(w));
    lemma_dedup_exact_subset(all_batch_words(qs), w);
    lemma_all_batch_words_origin(qs, w);
    let i = choose|i: int| 0 <= i < qs.len() && batch_words(qs[i]).contains(w);
    lemma_count_containing_pos(qs, w, i);
}

/// Every word of every query is a distinct word of the batch.
proof fn lemma_query_word_in_union(qs: Seq<Seq<char>>, i: int, w: Seq<char>)
    requires
        0 <= i < qs.len(),
        batch_words(qs[i]).contains(w),
    ensures
        batch_union(qs).contains(w),
{
    lemma_all_batch_words_contains(qs, i, w);
    lemma_dedup_exact_superset(all_batch_words(qs), w);
}

proof fn lemma_all_batch_words_contains(qs: Seq<Seq<char>>, i: int, w: Seq<char>)
    requires
        0 <= i < qs.len(),
        batch_words(qs[i]).contains(w),
    ensures
        all_batch_words(qs).contains(w),
    decreases qs.len(),
{
    let prev = all_batch_words(qs.drop_last());
    let last = batch_words(qs.last());
    if i < qs.len() - 1 {
        assert(qs.drop_last()[i] == qs[i]);
        lemma_all_batch_words_contains(qs.drop_last(), i, w);
        let k = choose|k: int| 0 <= k < prev.len() && prev[k] == w;
        assert(all_batch_words(qs)[k] == w);
    } else {
        let k = choose|k: int| 0 <= k < last.len() && last[k] == w;
        assert(all_batch_words(qs)[prev.len() + k] == w);
    }
}

proof fn lemma_dedup_exact_superset(ws: Seq<Seq<char>>, w: Seq<char>)
    requires
        ws.contains(w),
    ensures
        dedup_exact(ws).contains(w),
    decreases ws.len(),
{
    let prev = dedup_exact(ws.drop_last());
    let k = choose|k: int| 0 <= k < ws.len() && ws[k] == w;
    if k < ws.len() - 1 {
        assert(ws.drop_last()[k] == w);
        lemma_dedup_exact_superset(ws.drop_last(), w);
        if !prev.contains(ws.last()) {
            let j = choose|j: int| 0 <= j < prev.len() && prev[j] == w;
            assert(prev.push(ws.last())[j] == w);
        }
    } else {
        if !prev.contains(ws.last()) {
            assert(prev.push(ws.last())[prev.len() as int] == w);
        }
    }
}

/// The activations of a batch are at most the distinct words times the
/// queries.
proof fn lemma_batch_activations_len(qs: Seq<Seq<char>>, union: Seq<Seq<char>>)
    ensures
        batch_activations(qs, union).len() <= union.len() * qs.len(),
    decreases union.len(),
{
    if union.len() > 0 {
        lemma_batch_activations_len(qs, union.drop_last());
        lemma_count_containing_bound(qs, union.last());
        assert(union.drop_last().len() * qs.len() + qs.len() == union.len() * qs.len()) by (
        nonlinear_arith)
            requires
                union.drop_last().len() == union.len() - 1,
        ;
    }
}

/// Record the ids of the occurrences at `sub` then `con`, then each id
/// `extra` more times in place.
fn record_ids(
    system: &DAESystem,
    sub: &Vec<OccurrenceRef>,
    con: &Vec<OccurrenceRef>,
    extra: usize,
    ids: &mut Vec<u128>,
    Ghost(start): Ghost<SystemView>,
)
    requires
        same_layout(start, system@),
        forall|j: int| 0 <= j < sub@.len() ==> start.has_occurrence(#[trigger] sub@[j]),
        forall|j: int| 0 <= j < con@.len() ==> start.has_occurrence(#[trigger] con@[j]),
    ensures
        final(ids)@ == old(ids)@ + ids_at(start, sub@ + con@) + repeated_ids(
            ids_at(start, sub@ + con@),
            extra as nat,
        ),
{
    let ghost all = sub@ + con@;
    let ghost base = ids@;
    let ghost idv = ids_at(start, all);
    assert forall|j: int| 0 <= j < all.len() implies start.has_occurrence(#[trigger] all[j]) by {
        if j < sub@.len() {
            assert(all[j] == sub@[j]);
        } else {
            assert(all[j] == con@[j - sub@.len()]);
        }
    }
    let mut once: Vec<u128> = Vec::new();
    let mut k: usize = 0;
    while k < sub.len()
        invariant
            k <= sub@.len(),
            all == sub@ + con@,
            same_layout(start, system@),
            forall|j: int| 0 <= j < all.len() ==> start.has_occurrence(#[trigger] all[j]),
            idv == ids_at(start, all),
            once@ == idv.take(k as int),
        decreases sub.len() - k,
    {
        let r = sub[k];
        assert(r == all[k as int]);
        proof {
            lemma_same_layout_occurrence(start, system@, r);
        }
        let id = system.get_occurrence(r).id;
        once.push(id);
        assert(once@ =~= idv.take(k + 1));
        k = k + 1;
    }
    let mut k: usize = 0;
    while k < con.len()
        invariant
            k <= con@.len(),
            all == sub@ + con@,
            same_layout(start, system@),
            forall|j: int| 0 <= j < all.len() ==> start.has_occurrence(#[trigger] all[j]),
            idv == ids_at(start, all),
            once@ == idv.take(sub@.len() + k),
        decreases con.len() - k,
    {
        let r = con[k];
        assert(r == all[sub@.len() + k]);
        proof {
            lemma_same_layout_occurrence(start, system@, r);
        }
        let id = system.get_occurrence(r).id;
        once.push(id);
        assert(once@ =~= idv.take(sub@.len() + k + 1));
        k = k + 1;
    }
    assert(idv.take(all.len() as int) == idv);
    let mut k: usize = 0;
    while k < once.len()
        invariant
            k <= once@.len(),
            once@ == idv,
            ids@ == base + idv.take(k as int),
        decreases once.len() - k,
    {
        ids.push(once[k]);
        assert(ids@ =~= base + idv.take(k + 1));
        k = k + 1;
    }
    assert(idv.take(idv.len() as int) == idv);
    let ghost mid = ids@;
    let mut k: usize = 0;
    while k < once.len()
        invariant
            k <= once@.len(),
            once@ == idv,
            ids@ == mid + repeated_ids(idv.take(k as int), extra as nat),
        decreases once.len() - k,
    {
        let ghost before = ids@;
        let mut c: usize = 0;
        while c < extra
            invariant
                c <= extra,
                k < once@.len(),
                ids@ == before + Seq::new(c as nat, |j: int| once@[k as int]),
            decreases extra - c,
        {
            ids.push(once[k]);
            assert(ids@ =~= before + Seq::new((c + 1) as nat, |j: int| once@[k as int]));
            c = c + 1;
        }
        assert(idv.take(k + 1).drop_last() == idv.take(k as int));
        assert(idv.take(k + 1).last() == idv[k as int]);
        assert(ids@ =~= mid + repeated_ids(idv.take(k + 1), extra as nat));
        k = k + 1;
    }
    assert(idv.take(idv.len() as int) == idv);
}

proof fn lemma_batch_activations_prefix(qs: Seq<Seq<char>>, union: Seq<Seq<char>>, k: int)
    requires
        0 <= k < union.len(),
    ensures
        batch_activations(qs, union.take(k + 1)) == batch_activations(qs, union.take(k)) + Seq::new(
            count_containing(qs, union[k]),
            |j: int| crate::text::lowercase(union[k]),
        ),
{
    assert(union.take(k + 1).drop_last() == union.take(k));
    assert(union.take(k + 1).last() == union[k]);
}

/// How much a batch raises an occurrence whose word lowercases to `x`: for
/// each distinct word of the batch that lowercases to `x`, the number of
/// queries that hold it.
pub open spec fn batch_increment(qs: Seq<Seq<char>>, union: Seq<Seq<char>>, x: Seq<char>) -> nat
    decreases union.len(),
{
    if union.len() == 0 {
        0
    } else {
        batch_increment(qs, union.drop_last(), x) + if crate::text::lowercase(union.last()) == x {
            count_containing(qs, union.last())
        } else {
            0nat
        }
    }
}

proof fn lemma_count_matching_concat(a: Seq<Seq<char>>, b: Seq<Seq<char>>, x: Seq<char>)
    ensures
        count_matching(a + b, x) == count_matching(a, x) + count_matching(b, x),
    decreases b.len(),
{
    if b.len() > 0 {
        lemma_count_matching_concat(a, b.drop_last(), x);
        assert((a + b).drop_last() =~= a + b.drop_last());
        assert((a + b).last() == b.last());
    } else {
        assert(a + b =~= a);
    }
}

proof fn lemma_count_matching_repeat(n: nat, y: Seq<char>, x: Seq<char>)
    ensures
        count_matching(Seq::new(n, |j: int| y), x) == if y == x {
            n
        } else {
            0nat
        },
    decreases n,
{
    if n > 0 {
        lemma_count_matching_repeat((n - 1) as nat, y, x);
        assert(Seq::new(n, |j: int| y).drop_last() =~= Seq::new((n - 1) as nat, |j: int| y));
    } else {
        assert(Seq::new(n, |j: int| y) =~= Seq::<Seq<char>>::empty());
    }
}

proof fn lemma_batch_activations_count(qs: Seq<Seq<char>>, union: Seq<Seq<char>>, x: Seq<char>)
    ensures
        count_matching(batch_activations(qs, union), x) == batch_increment(qs, union, x),
    decreases union.len(),
{
    if union.len() > 0 {
        lemma_batch_activations_count(qs, union.drop_last(), x);
        let rep = Seq::new(count_containing(qs, union.last()), |j: int| crate::text::lowercase(union.last()));
        lemma_count_matching_concat(batch_activations(qs, union.drop_last()), rep, x);
        lemma_count_matching_repeat(
            count_containing(qs, union.last()),
            crate::text::lowercase(union.last()),
            x,
        );
    } else {
        assert(batch_activations(qs, union) =~= Seq::<Seq<char>>::empty());
    }
}

/// A batch raises each occurrence once per query holding a word of the
/// batch that lowercases to the occurrence's lowercased word: a word held by
/// N of the queries counts N times, as N separate queries would; nothing
/// else changes.
pub proof fn lemma_batch_count(s: SystemView, qs: Seq<Seq<char>>, r: OccurrenceRef)
    requires
        s.headroom((batch_union(qs).len() * qs.len()) as int),
        s.has_occurrence(r),
    ensures
        activated_all(s, batch_activations(qs, batch_union(qs))).has_occurrence(r),
        activated_all(s, batch_activations(qs, batch_union(qs))).occurrence(r) == s.occurrence(
            r,
        ).with_count(
            (s.occurrence(r).activation_count + batch_increment(
                qs,
                batch_union(qs),
                crate::text::lowercase(s.occurrence(r).word),
            )) as u32,
        ),
{
    let acts = batch_activations(qs, batch_union(qs));
    lemma_batch_activations_len(qs, batch_union(qs));
    crate::system::lemma_headroom_mono(s, (batch_union(qs).len() * qs.len()) as int, acts.len() as int);
    crate::query::lemma_activated_all_count(s, acts, r);
    lemma_batch_activations_count(qs, batch_union(qs), crate::text::lowercase(s.occurrence(r).word));
}

/// The system after `QueryEngine::activate` is called on each query of `qs`
/// in turn (each call activates the lowercase forms of its query's distinct
/// words).
pub open spec fn activated_in_turn(s: SystemView, qs: Seq<Seq<char>>) -> SystemView
    decreases qs.len(),
{
    if qs.len() == 0 {
        s
    } else {
        activated_all(activated_in_turn(s, qs.drop_last()), batch_words(qs.last()))
    }
}

proof fn lemma_activated_all_concat(s: SystemView, a: Seq<Seq<char>>, b: Seq<Seq<char>>)
    ensures
        activated_all(activated_all(s, a), b) == activated_all(s, a + b),
    decreases b.len(),
{
    if b.len() == 0 {
        assert(a + b =~= a);
    } else {
        lemma_activated_all_concat(s, a, b.drop_last());
        assert((a + b).drop_last() =~= a + b.drop_last());
        assert((a + b).last() == b.last());
    }
}

proof fn lemma_activated_in_turn(s: SystemView, qs: Seq<Seq<char>>)
    ensures
        activated_in_turn(s, qs) == activated_all(s, all_batch_words(qs)),
    decreases qs.len(),
{
    if qs.len() > 0 {
        lemma_activated_in_turn(s, qs.drop_last());
        lemma_activated_all_concat(s, all_batch_words(qs.drop_last()), batch_words(qs.last()));
    }
}

proof fn lemma_dedup_lower_distinct(ts: Seq<Seq<char>>)
    ensures
        forall|i: int, j: int|
            0 <= i < j < dedup_lower(ts).len() ==> lowercase(#[trigger] dedup_lower(ts)[i]) != lowercase(
                #[trigger] dedup_lower(ts)[j],
            ),
    decreases ts.len(),
{
    if ts.len() > 0 {
        lemma_dedup_lower_distinct(ts.drop_last());
        let prev = dedup_lower(ts.drop_last());
        if !(exists|i: int| 0 <= i < prev.len() && lowercase(prev[i]) == lowercase(ts.last())) {
            assert forall|i: int, j: int|
                0 <= i < j < prev.push(ts.last()).len() implies lowercase(#[trigger] prev.push(ts.last())[i])
                    != lowercase(#[trigger] prev.push(ts.last())[j]) by {
                assert(prev.push(ts.last())[i] == prev[i]);
                if j < prev.len() {
                    assert(prev.push(ts.last())[j] == prev[j]);
                }
            }
        }
    }
}

proof fn lemma_batch_words_distinct(q: Seq<char>)
    ensures
        batch_words(q).no_duplicates(),
{
    lemma_dedup_lower_distinct(tokens_of(q));
    let d = query_words(q);
    assert forall|i: int, j: int| 0 <= i < batch_words(q).len() && 0 <= j < batch_words(q).len() && i != j
        implies batch_words(q)[i] != batch_words(q)[j] by {
        if i < j {
            assert(lowercase(d[i]) != lowercase(d[j]));
        } else {
            assert(lowercase(d[j]) != lowercase(d[i]));
        }
    }
}

proof fn lemma_count_matching_distinct(ws: Seq<Seq<char>>, x: Seq<char>)
    requires
        ws.no_duplicates(),
    ensures
        count_matching(ws, x) == if ws.contains(x) {
            1nat
        } else {
            0nat
        },
    decreases ws.len(),
{
    if ws.len() > 0 {
        let init = ws.drop_last();
        assert(init.no_duplicates()) by {
            assert forall|i: int, j: int| 0 <= i < init.len() && 0 <= j < init.len() && i != j implies init[i]
                != init[j] by {
                assert(init[i] == ws[i] && init[j] == ws[j]);
            }
        }
        lemma_count_matching_distinct(init, x);
        if init.contains(x) {
            let k = choose|k: int| 0 <= k < init.len() && init[k] == x;
            assert(ws[k] == x);
            assert(ws.last() != x) by {
                assert(ws[ws.len() - 1] == ws.last());
            }
        }
        if ws.contains(x) && !init.contains(x) {
            let k = choose|k: int| 0 <= k < ws.len() && ws[k] == x;
            if k < ws.len() - 1 {
                assert(init[k] == x);
            }
        }
        if ws.last() == x {
            assert(ws[ws.len() - 1] == x);
        }
    }
}

proof fn lemma_count_matching_all_words(qs: Seq<Seq<char>>, x: Seq<char>)
    ensures
        count_matching(all_batch_words(qs), x) == count_containing(qs, x),
    decreases qs.len(),
{
    if qs.len() > 0 {
        lemma_count_matching_all_words(qs.drop_last(), x);
        lemma_count_matching_concat(all_batch_words(qs.drop_last()), batch_words(qs.last()), x);
        lemma_batch_words_distinct(qs.last());
        lemma_count_matching_distinct(batch_words(qs.last()), x);
    }
}

proof fn lemma_batch_increment_closed(qs: Seq<Seq<char>>, union: Seq<Seq<char>>, x: Seq<char>)
    requires
        forall|k: int| 0 <= k < union.len() ==> lowercase(#[trigger] union[k]) == union[k],
    ensures
        batch_increment(qs, union, x) == count_matching(union, x) * count_containing(qs, x),
    decreases union.len(),
{
    if union.len() > 0 {
        let init = union.drop_last();
        assert forall|k: int| 0 <= k < init.len() implies lowercase(#[trigger] init[k]) == init[k] by {
            assert(init[k] == union[k]);
        }
        lemma_batch_increment_closed(qs, init, x);
        assert(lowercase(union.last()) == union.last()) by {
            assert(union[union.len() - 1] == union.last());
        }
        let m = count_matching(init, x);
        let c = count_containing(qs, x);
        if union.last() == x {
            assert(count_matching(union, x) == m + 1);
            assert(batch_increment(qs, union, x) == m * c + c);
            assert((m + 1) * c == m * c + c) by (nonlinear_arith);
        } else {
            assert(count_matching(union, x) == m);
            assert(batch_increment(qs, union, x) == m * c);
        }
    } else {
        assert(0 * count_containing(qs, x) == 0);
    }
}

proof fn lemma_count_containing_origin(qs: Seq<Seq<char>>, x: Seq<char>)
    requires
        count_containing(qs, x) > 0,
    ensures
        exists|i: int| 0 <= i < qs.len() && batch_words(#[trigger] qs[i]).contains(x),
    decreases qs.len(),
{
    if batch_words(qs.last()).contains(x) {
        assert(qs[qs.len() - 1] == qs.last());
    } else {
        lemma_count_containing_origin(qs.drop_last(), x);
        let i = choose|i: int| 0 <= i < qs.drop_last().len() && batch_words(#[trigger] qs.drop_last()[i]).contains(x);
        assert(qs.drop_last()[i] == qs[i]);
    }
}

proof fn lemma_dedup_exact_distinct(ws: Seq<Seq<char>>)
    ensures
        dedup_exact(ws).no_duplicates(),
    decreases ws.len(),
{
    if ws.len() > 0 {
        lemma_dedup_exact_distinct(ws.drop_last());
        let prev = dedup_exact(ws.drop_last());
        if !prev.contains(ws.last()) {
            assert forall|i: int, j: int|
                0 <= i < prev.push(ws.last()).len() && 0 <= j < prev.push(ws.last()).len() && i != j implies prev.push(
                ws.last(),
            )[i] != prev.push(ws.last())[j] by {
                if i < prev.len() && j < prev.len() {
                    assert(prev.push(ws.last())[i] == prev[i]);
                    assert(prev.push(ws.last())[j] == prev[j]);
                } else if i < prev.len() {
                    assert(prev.push(ws.last())[i] == prev[i]);
                } else {
                    assert(prev.push(ws.last())[j] == prev[j]);
                }
            }
        }
    }
}

/// A batch activates what the same queries activate one after the other:
/// after `batch_activate` each occurrence has the activation count it would
/// have after `QueryEngine::activate` on each query in turn. This holds when
/// lowercasing the batch's (already lowercased) words leaves them as they
/// are, which `str::to_lowercase`'s documentation does not promise for
/// every text: the batch lowercases its words once more when it activates
/// them.
pub proof fn lemma_batch_matches_sequential(s: SystemView, qs: Seq<Seq<char>>, r: OccurrenceRef)
    requires
        s.headroom((batch_union(qs).len() * qs.len()) as int),
        s.headroom(all_batch_words(qs).len() as int),
        s.has_occurrence(r),
        forall|k: int| 0 <= k < batch_union(qs).len() ==> lowercase(#[trigger] batch_union(qs)[k]) == batch_union(qs)[k],
    ensures
        activated_in_turn(s, qs).has_occurrence(r),
        activated_in_turn(s, qs).occurrence(r) == activated_all(s, batch_activations(qs, batch_union(qs))).occurrence(r),
{
    let x = lowercase(s.occurrence(r).word);
    let union = batch_union(qs);
    lemma_activated_in_turn(s, qs);
    crate::query::lemma_activated_all_count(s, all_batch_words(qs), r);
    lemma_count_matching_all_words(qs, x);
    lemma_batch_count(s, qs, r);
    lemma_batch_increment_closed(qs, union, x);
    lemma_dedup_exact_distinct(all_batch_words(qs));
    lemma_count_matching_distinct(union, x);
    if !union.contains(x) && count_containing(qs, x) > 0 {
        lemma_count_containing_origin(qs, x);
        let i = choose|i: int| 0 <= i < qs.len() && batch_words(#[trigger] qs[i]).contains(x);
        lemma_query_word_in_union(qs, i, x);
    }
}

/// Number of locations, subconscious and conscious, of a word.
pub open spec fn word_refs_len(s: SystemView, lw: Seq<char>) -> nat {
    s.subconscious_refs(lw).len() + s.conscious_refs(lw).len()
}

/// Number of locations of each of `lws` in `s`, summed.
pub open spec fn refs_count(s: SystemView, lws: Seq<Seq<char>>) -> nat
    decreases lws.len(),
{
    if lws.len() == 0 {
        0
    } else {
        refs_count(s, lws.drop_last()) + word_refs_len(s, lws.last())
    }
}

/// Number of locations that `QueryEngine::activate` returns for each query
/// of `qs` when they are run one after the other from `s`.
pub open spec fn refs_in_turn(s: SystemView, qs: Seq<Seq<char>>) -> nat
    decreases qs.len(),
{
    if qs.len() == 0 {
        0
    } else {
        let t = activated_in_turn(s, qs.drop_last());
        refs_in_turn(s, qs.drop_last()) + subconscious_refs_all(t, batch_words(qs.last())).len()
            + conscious_refs_all(t, batch_words(qs.last())).len()
    }
}

/// The words of `d`, each counted as often as it occurs in `ws`, by their
/// numbers of locations.
spec fn weighted_refs(s: SystemView, d: Seq<Seq<char>>, ws: Seq<Seq<char>>) -> nat
    decreases d.len(),
{
    if d.len() == 0 {
        0
    } else {
        weighted_refs(s, d.drop_last(), ws) + count_matching(ws, d.last()) * word_refs_len(s, d.last())
    }
}

proof fn lemma_refs_all_len(t: SystemView, lws: Seq<Seq<char>>)
    ensures
        subconscious_refs_all(t, lws).len() + conscious_refs_all(t, lws).len() == refs_count(t, lws),
    decreases lws.len(),
{
    if lws.len() > 0 {
        lemma_refs_all_len(t, lws.drop_last());
    }
}

proof fn lemma_refs_count_layout(s: SystemView, t: SystemView, lws: Seq<Seq<char>>)
    requires
        same_layout(s, t),
    ensures
        refs_count(s, lws) == refs_count(t, lws),
    decreases lws.len(),
{
    if lws.len() > 0 {
        lemma_refs_count_layout(s, t, lws.drop_last());
        lemma_same_layout_refs(s, t, lws.last());
    }
}

proof fn lemma_refs_count_concat(s: SystemView, a: Seq<Seq<char>>, b: Seq<Seq<char>>)
    ensures
        refs_count(s, a + b) == refs_count(s, a) + refs_count(s, b),
    decreases b.len(),
{
    if b.len() == 0 {
        assert(a + b =~= a);
    } else {
        lemma_refs_count_concat(s, a, b.drop_last());
        assert((a + b).drop_last() =~= a + b.drop_last());
        assert((a + b).last() == b.last());
    }
}

proof fn lemma_all_batch_words_prefix_len(qs: Seq<Seq<char>>)
    requires
        qs.len() > 0,
    ensures
        all_batch_words(qs.drop_last()).len() <= all_batch_words(qs).len(),
{
}

/// Running the queries one after the other returns, in all, as many
/// locations as their words have in `s`.
proof fn lemma_refs_in_turn(s: SystemView, qs: Seq<Seq<char>>)
    requires
        s.headroom(all_batch_words(qs).len() as int),
    ensures
        refs_in_turn(s, qs) == refs_count(s, all_batch_words(qs)),
    decreases qs.len(),
{
    if qs.len() > 0 {
        let init = qs.drop_last();
        lemma_all_batch_words_prefix_len(qs);
        crate::system::lemma_headroom_mono(s, all_batch_words(qs).len() as int, all_batch_words(init).len() as int);
        lemma_refs_in_turn(s, init);
        lemma_activated_in_turn(s, init);
        lemma_activated_all(s, all_batch_words(init), all_batch_words(init).len() as int);
        let t = activated_in_turn(s, init);
        lemma_refs_all_len(t, batch_words(qs.last()));
        lemma_refs_count_layout(s, t, batch_words(qs.last()));
        lemma_refs_count_concat(s, all_batch_words(init), batch_words(qs.last()));
    }
}

proof fn lemma_count_matching_absent(ws: Seq<Seq<char>>, x: Seq<char>)
    requires
        !ws.contains(x),
    ensures
        count_matching(ws, x) == 0,
    decreases ws.len(),
{
    if ws.len() > 0 {
        assert(ws.last() == ws[ws.len() - 1]);
        assert(!ws.drop_last().contains(x)) by {
            if ws.drop_last().contains(x) {
                let k = choose|k: int| 0 <= k < ws.drop_last().len() && ws.drop_last()[k] == x;
                assert(ws[k] == x);
            }
        }
        lemma_count_matching_absent(ws.drop_last(), x);
    }
}

proof fn lemma_count_matching_positive(ws: Seq<Seq<char>>, x: Seq<char>)
    requires
        ws.contains(x),
    ensures
        count_matching(ws, x) > 0,
    decreases ws.len(),
{
    if ws.last() != x {
        assert(ws.drop_last().contains(x)) by {
            let k = choose|k: int| 0 <= k < ws.len() && ws[k] == x;
            assert(k != ws.len() - 1);
            assert(ws.drop_last()[k] == x);
        }
        lemma_count_matching_positive(ws.drop_last(), x);
    }
}

/// Adding one more word to `ws` adds its locations once, if it is in `d`.
proof fn lemma_weighted_push(s: SystemView, d: Seq<Seq<char>>, ws: Seq<Seq<char>>, x: Seq<char>)
    requires
        d.no_duplicates(),
    ensures
        weighted_refs(s, d, ws.push(x)) == weighted_refs(s, d, ws) + if d.contains(x) {
            word_refs_len(s, x)
        } else {
            0nat
        },
    decreases d.len(),
{
    if d.len() > 0 {
        let init = d.drop_last();
        let y = d.last();
        assert(init.no_duplicates()) by {
            assert forall|i: int, j: int| 0 <= i < init.len() && 0 <= j < init.len() && i != j implies init[i]
                != init[j] by {
                assert(init[i] == d[i] && init[j] == d[j]);
            }
        }
        lemma_weighted_push(s, init, ws, x);
        assert(ws.push(x).drop_last() =~= ws);
        let c = count_matching(ws, y);
        let n = word_refs_len(s, y);
        assert(d.contains(x) <==> (init.contains(x) || y == x)) by {
            if d.contains(x) && y != x {
                let k = choose|k: int| 0 <= k < d.len() && d[k] == x;
                assert(k != d.len() - 1);
                assert(init[k] == x);
            }
            if init.contains(x) {
                let k = choose|k: int| 0 <= k < init.len() && init[k] == x;
                assert(d[k] == x);
            }
            if y == x {
                assert(d[d.len() - 1] == x);
            }
        }
        if y == x {
            assert(!init.contains(x)) by {
                if init.contains(x) {
                    let k = choose|k: int| 0 <= k < init.len() && init[k] == x;
                    assert(d[k] == d[d.len() - 1]);
                }
            }
            assert((c + 1) * n == c * n + n) by (nonlinear_arith);
        }
    }
}

/// The locations of the words of `ws` equal, summed over the distinct words,
/// each word's locations times how often it occurs.
proof fn lemma_refs_count_weighted(s: SystemView, ws: Seq<Seq<char>>)
    ensures
        refs_count(s, ws) == weighted_refs(s, dedup_exact(ws), ws),
    decreases ws.len(),
{
    if ws.len() > 0 {
        let init = ws.drop_last();
        let x = ws.last();
        lemma_refs_count_weighted(s, init);
        let d = dedup_exact(init);
        lemma_dedup_exact_distinct(init);
        assert(init.push(x) =~= ws);
        lemma_weighted_push(s, d, init, x);
        assert(ws.drop_last() == init && ws.last() == x);
        assert(refs_count(s, ws) == refs_count(s, init) + word_refs_len(s, x));
        if d.contains(x) {
            assert(dedup_exact(ws) == d);
        } else {
            assert(!init.contains(x)) by {
                if init.contains(x) {
                    lemma_dedup_exact_superset(init, x);
                }
            }
            lemma_count_matching_absent(init, x);
            assert(dedup_exact(ws) == d.push(x));
            assert(d.push(x).drop_last() =~= d);
            assert(count_matching(ws, x) == 1);
        }
    }
}

proof fn lemma_repeated_ids_len(ids: Seq<u128>, m: nat)
    ensures
        repeated_ids(ids, m).len() == ids.len() * m,
    decreases ids.len(),
{
    if ids.len() > 0 {
        lemma_repeated_ids_len(ids.drop_last(), m);
        assert((ids.len() - 1) * m + m == ids.len() * m) by (nonlinear_arith);
    }
}

/// The activation record lists each word's locations once per query
/// holding it.
proof fn lemma_batch_ids_len(s: SystemView, qs: Seq<Seq<char>>, d: Seq<Seq<char>>)
    requires
        forall|k: int| 0 <= k < d.len() ==> lowercase(#[trigger] d[k]) == d[k],
        forall|k: int| 0 <= k < d.len() ==> count_containing(qs, #[trigger] d[k]) > 0,
    ensures
        batch_ids(s, qs, d).len() == weighted_refs(s, d, all_batch_words(qs)),
    decreases d.len(),
{
    if d.len() > 0 {
        let init = d.drop_last();
        assert forall|k: int| 0 <= k < init.len() implies lowercase(#[trigger] init[k]) == init[k]
            && count_containing(qs, init[k]) > 0 by {
            assert(init[k] == d[k]);
        }
        lemma_batch_ids_len(s, qs, init);
        let y = d.last();
        assert(y == d[d.len() - 1]);
        let refs = s.subconscious_refs(y) + s.conscious_refs(y);
        let ids = ids_at(s, refs);
        let c = count_containing(qs, y);
        lemma_repeated_ids_len(ids, (c - 1) as nat);
        lemma_count_matching_all_words(qs, y);
        let n = word_refs_len(s, y);
        assert(ids.len() == n);
        assert(n + n * (c - 1) == c * n) by (nonlinear_arith)
            requires
                c >= 1,
        ;
    }
}

/// The activation record of a batch is as long as what the same queries
/// return when run one after the other: a word held by N of the queries
/// contributes its locations N times either way. This holds when
/// lowercasing the batch's (already lowercased) words leaves them as they
/// are, which `str::to_lowercase`'s documentation does not promise for
/// every text.
pub proof fn lemma_batch_ids_match_sequential(s: SystemView, qs: Seq<Seq<char>>)
    requires
        s.headroom(all_batch_words(qs).len() as int),
        forall|k: int| 0 <= k < batch_union(qs).len() ==> lowercase(#[trigger] batch_union(qs)[k]) == batch_union(qs)[k],
    ensures
        batch_ids(s, qs, batch_union(qs)).len() == refs_in_turn(s, qs),
{
    let all = all_batch_words(qs);
    let union = batch_union(qs);
    assert forall|k: int| 0 <= k < union.len() implies count_containing(qs, #[trigger] union[k]) > 0 by {
        assert(union.contains(union[k]));
        lemma_dedup_exact_subset(all, union[k]);
        lemma_count_matching_positive(all, union[k]);
        lemma_count_matching_all_words(qs, union[k]);
    }
    lemma_batch_ids_len(s, qs, union);
    lemma_refs_count_weighted(s, all);
    lemma_refs_in_turn(s, qs);
}

/// Batch query engine.
pub struct BatchQueryEngine;

impl BatchQueryEngine {
    /// Activate a batch of queries: every distinct word of the batch is
    /// activated once per query that holds it; returns the shared locations,
    /// the activation record, and each query's own locations.
    pub fn batch_activate(system: &mut DAESystem, requests: &Vec<BatchQueryRequest>) -> (r:
        BatchActivation)
        requires
            old(system).wf(),
            old(system)@.headroom(
                (batch_union(request_queries(requests@)).len() * requests@.len()) as int,
            ),
        ensures
            final(system).wf(),
            final(system)@ == activated_all(
                old(system)@,
                batch_activations(request_queries(requests@), batch_union(request_queries(requests@))),
            ),
            strings_view(r.union_words@) == batch_union(request_queries(requests@)),
            r.query_words@.len() == requests@.len(),
            forall|i: int|
                0 <= i < requests@.len() ==> strings_view((#[trigger] r.query_words@[i])@)
                    == batch_words(requests@[i].query@),
            r.subconscious@ == subconscious_refs_all(
                old(system)@,
                lowered(batch_union(request_queries(requests@))),
            ),
            r.conscious@ == conscious_refs_all(
                old(system)@,
                lowered(batch_union(request_queries(requests@))),
            ),
            r.activated_ids@ == batch_ids(
                old(system)@,
                request_queries(requests@),
                batch_union(request_queries(requests@)),
            ),
            r.query_subconscious@.len() == requests@.len(),
            r.query_conscious@.len() == requests@.len(),
            forall|i: int|
                0 <= i < requests@.len() ==> (#[trigger] r.query_subconscious@[i])@
                    == subconscious_refs_all(old(system)@, lowered(batch_words(requests@[i].query@))),
            forall|i: int|
                0 <= i < requests@.len() ==> (#[trigger] r.query_conscious@[i])@
                    == conscious_refs_all(old(system)@, lowered(batch_words(requests@[i].query@))),
    {
        let ghost qs = request_queries(requests@);
        let ghost start = system@;
        // Step 1: each query's distinct lowercase words, and their union.
        let mut query_words: Vec<Vec<String>> = Vec::new();
        let mut union_words: Vec<String> = Vec::new();
        let mut i: usize = 0;
        assert(all_batch_words(qs.take(0)) =~= seq![]);
        while i < requests.len()
            invariant
                i <= requests@.len(),
                qs == request_queries(requests@),
                query_words@.len() == i,
                forall|j: int|
                    0 <= j < i ==> strings_view((#[trigger] query_words@[j])@) == batch_words(qs[j]),
                strings_view(union_words@) == dedup_exact(all_batch_words(qs.take(i as int))),
            decreases requests.len() - i,
        {
            let words = lowered_words(requests[i].query.as_str());
            proof {
                assert(qs[i as int] == requests@[i as int].query@);
                assert(qs.take(i + 1).drop_last() == qs.take(i as int));
                assert(qs.take(i + 1).last() == qs[i as int]);
            }
            extend_dedup(&mut union_words, &words, Ghost(all_batch_words(qs.take(i as int))));
            query_words.push(words);
            i = i + 1;
        }
        assert(qs.take(qs.len() as int) == qs);
        let ghost union = strings_view(union_words@);
        // Step 2: activate each distinct word once per query holding it.
        let ghost acts = batch_activations(qs, union);
        proof {
            lemma_batch_activations_len(qs, union);
            lemma_activated_all(start, acts, acts.len() as int);
            system.lemma_bounded();
        }
        let mut subconscious: Vec<OccurrenceRef> = Vec::new();
        let mut conscious: Vec<OccurrenceRef> = Vec::new();
        let mut activated_ids: Vec<u128> = Vec::new();
        let mut union_sub: Vec<Vec<OccurrenceRef>> = Vec::new();
        let mut union_con: Vec<Vec<OccurrenceRef>> = Vec::new();
        let mut k: usize = 0;
        assert(batch_activations(qs, union.take(0)) =~= seq![]);
        assert(lowered(union.take(0)) =~= seq![]);
        while k < union_words.len()
            invariant
                k <= union.len(),
                union == strings_view(union_words@),
                union == batch_union(qs),
                qs == request_queries(requests@),
                query_words@.len() == qs.len(),
                forall|j: int|
                    0 <= j < qs.len() ==> strings_view((#[trigger] query_words@[j])@) == batch_words(qs[j]),
                acts == batch_activations(qs, union),
                start.headroom(acts.len() as int),
                start.bounded(),
                system.wf(),
                system@ == activated_all(start, batch_activations(qs, union.take(k as int))),
                batch_activations(qs, union.take(k as int)).len() <= acts.len(),
                subconscious@ == subconscious_refs_all(start, lowered(union.take(k as int))),
                conscious@ == conscious_refs_all(start, lowered(union.take(k as int))),
                activated_ids@ == batch_ids(start, qs, union.take(k as int)),
                union_sub@.len() == k,
                union_con@.len() == k,
                forall|j: int|
                    0 <= j < k ==> (#[trigger] union_sub@[j])@ == start.subconscious_refs(
                        crate::text::lowercase(union[j]),
                    ),
                forall|j: int|
                    0 <= j < k ==> (#[trigger] union_con@[j])@ == start.conscious_refs(
                        crate::text::lowercase(union[j]),
                    ),
            decreases union_words.len() - k,
        {
            let n = count_queries_with(&query_words, union_words[k].as_str(), Ghost(qs));
            let ghost lw = crate::text::lowercase(union[k as int]);
            let ghost base_acts = batch_activations(qs, union.take(k as int));
            proof {
                assert(union[k as int] == union_words@[k as int]@);
                lemma_union_counted(qs, k as int);
                lemma_batch_activations_prefix(qs, union, k as int);
                lemma_batch_activations_len_prefix(qs, union, k + 1);
                assert(union.take(k + 1).drop_last() == union.take(k as int));
                assert(union.take(k + 1).last() == union[k as int]);
                assert(lowered(union.take(k + 1)) =~= lowered(union.take(k as int)).push(lw));
                assert(lowered(union.take(k + 1)).drop_last() == lowered(union.take(k as int)));
                assert(base_acts + Seq::new(0nat, |j: int| lw) =~= base_acts);
            }
            let mut c: usize = 0;
            let mut sub_k: Vec<OccurrenceRef> = Vec::new();
            let mut con_k: Vec<OccurrenceRef> = Vec::new();
            while c < n
                invariant
                    c <= n,
                    k < union_words@.len(),
                    start.headroom(acts.len() as int),
                    base_acts.len() + n <= acts.len(),
                    system.wf(),
                    system@ == activated_all(start, base_acts + Seq::new(c as nat, |j: int| lw)),
                    lw == crate::text::lowercase(union_words@[k as int]@),
                    c > 0 ==> sub_k@ == start.subconscious_refs(lw),
                    c > 0 ==> con_k@ == start.conscious_refs(lw),
                decreases n - c,
            {
                let ghost prefix = base_acts + Seq::new(c as nat, |j: int| lw);
                proof {
                    lemma_activated_all(start, prefix, acts.len() as int);
                    lemma_headroom_activate(system@, lw, acts.len() - prefix.len());
                    lemma_same_layout_refs(start, system@, lw);
                    assert((base_acts + Seq::new((c + 1) as nat, |j: int| lw)).drop_last() =~= prefix);
                    assert((base_acts + Seq::new((c + 1) as nat, |j: int| lw)).last() == lw);
                }
                let act = system.activate_word(union_words[k].as_str());
                if c == 0 {
                    sub_k = act.subconscious;
                    con_k = act.conscious;
                }
                c = c + 1;
            }
            proof {
                assert(base_acts + Seq::new(n as nat, |j: int| lw) == batch_activations(
                    qs,
                    union.take(k + 1),
                ));
                lemma_activated_all(start, batch_activations(qs, union.take(k + 1)), acts.len() as int);
                lemma_word_refs(start, lw);
            }
            record_ids(system, &sub_k, &con_k, n - 1, &mut activated_ids, Ghost(start));
            proof {
                assert(batch_ids(start, qs, union.take(k + 1)) == batch_ids(start, qs, union.take(k as int))
                    + ids_at(start, sub_k@ + con_k@) + repeated_ids(ids_at(start, sub_k@ + con_k@), (n - 1) as nat));
            }
            subconscious.append(&mut sub_k.clone());
            conscious.append(&mut con_k.clone());
            union_sub.push(sub_k);
            union_con.push(con_k);
            k = k + 1;
        }
        assert(union.take(union.len() as int) == union);
        // Step 3: each query's own locations, read off the shared lookups.
        let mut query_subconscious: Vec<Vec<OccurrenceRef>> = Vec::new();
        let mut query_conscious: Vec<Vec<OccurrenceRef>> = Vec::new();
        let mut i: usize = 0;
        while i < query_words.len()
            invariant
                i <= qs.len(),
                qs == request_queries(requests@),
                union == strings_view(union_words@),
                union == batch_union(qs),
                query_words@.len() == qs.len(),
                forall|j: int|
                    0 <= j < qs.len() ==> strings_view((#[trigger] query_words@[j])@) == batch_words(qs[j]),
                union_sub@.len() == union.len(),
                union_con@.len() == union.len(),
                forall|j: int|
                    0 <= j < union.len() ==> (#[trigger] union_sub@[j])@ == start.subconscious_refs(
                        crate::text::lowercase(union[j]),
                    ),
                forall|j: int|
                    0 <= j < union.len() ==> (#[trigger] union_con@[j])@ == start.conscious_refs(
                        crate::text::lowercase(union[j]),
                    ),
                query_subconscious@.len() == i,
                query_conscious@.len() == i,
                forall|j: int|
                    0 <= j < i ==> (#[trigger] query_subconscious@[j])@ == subconscious_refs_all(
                        start,
                        lowered(batch_words(qs[j])),
                    ),
                forall|j: int|
                    0 <= j < i ==> (#[trigger] query_conscious@[j])@ == conscious_refs_all(
                        start,
                        lowered(batch_words(qs[j])),
                    ),
            decreases query_words.len() - i,
        {
            let words = &query_words[i];
            let ghost wv = strings_view(words@);
            assert(wv == batch_words(qs[i as int]));
            let mut qsub: Vec<OccurrenceRef> = Vec::new();
            let mut qcon: Vec<OccurrenceRef> = Vec::new();
            let mut t: usize = 0;
            assert(lowered(wv.take(0)) =~= seq![]);
            while t < words.len()
                invariant
                    t <= wv.len(),
                    wv == strings_view(words@),
                    wv == batch_words(qs[i as int]),
                    i < qs.len(),
                    union == strings_view(union_words@),
                    union == batch_union(qs),
                    union_sub@.len() == union.len(),
                    union_con@.len() == union.len(),
                    forall|j: int|
                        0 <= j < union.len() ==> (#[trigger] union_sub@[j])@ == start.subconscious_refs(
                            crate::text::lowercase(union[j]),
                        ),
                    forall|j: int|
                        0 <= j < union.len() ==> (#[trigger] union_con@[j])@ == start.conscious_refs(
                            crate::text::lowercase(union[j]),
                        ),
                    qsub@ == subconscious_refs_all(start, lowered(wv.take(t as int))),
                    qcon@ == conscious_refs_all(start, lowered(wv.take(t as int))),
                decreases words.len() - t,
            {
                proof {
                    assert(batch_words(qs[i as int]).contains(wv[t as int]));
                    lemma_query_word_in_union(qs, i as int, wv[t as int]);
                }
                let j = index_of_word(&union_words, words[t].as_str());
                proof {
                    assert(wv[t as int] == words@[t as int]@);
                    assert(lowered(wv.take(t + 1)) =~= lowered(wv.take(t as int)).push(
                        crate::text::lowercase(wv[t as int]),
                    ));
                    assert(lowered(wv.take(t + 1)).drop_last() == lowered(wv.take(t as int)));
                }
                qsub.append(&mut union_sub[j].clone());
                qcon.append(&mut union_con[j].clone());
                t = t + 1;
            }
            assert(wv.take(wv.len() as int) == wv);
            query_subconscious.push(qsub);
            query_conscious.push(qcon);
            i = i + 1;
        }
        BatchActivation {
            query_words,
            union_words,
            subconscious,
            conscious,
            activated_ids,
            query_subconscious,
            query_conscious,
        }
    }

    /// Activate a batch when every occurrence can take as many more
    /// activations as the batch has distinct words times queries; otherwise
    /// change nothing and return `None`.
    pub fn try_batch_activate(system: &mut DAESystem, requests: &Vec<BatchQueryRequest>) -> (r: Option<
        BatchActivation,
    >)
        requires
            old(system).wf(),
        ensures
            final(system).wf(),
            r.is_some() == (batch_union(request_queries(requests@)).len() * requests@.len() <= usize::MAX
                && old(system)@.headroom(
                (batch_union(request_queries(requests@)).len() * requests@.len()) as int,
            )),
            r.is_none() ==> final(system)@ == old(system)@,
            r matches Some(a) ==> {
                &&& final(system)@ == activated_all(
                    old(system)@,
                    batch_activations(request_queries(requests@), batch_union(request_queries(requests@))),
                )
                &&& strings_view(a.union_words@) == batch_union(request_queries(requests@))
                &&& a.activated_ids@ == batch_ids(
                    old(system)@,
                    request_queries(requests@),
                    batch_union(request_queries(requests@)),
                )
                &&& a.query_words@.len() == requests@.len()
                &&& a.query_subconscious@.len() == requests@.len()
                &&& a.query_conscious@.len() == requests@.len()
                &&& forall|i: int|
                    0 <= i < requests@.len() ==> strings_view((#[trigger] a.query_words@[i])@)
                        == batch_words(requests@[i].query@)
                &&& forall|i: int|
                    0 <= i < requests@.len() ==> (#[trigger] a.query_subconscious@[i])@
                        == subconscious_refs_all(old(system)@, lowered(batch_words(requests@[i].query@)))
                &&& forall|i: int|
                    0 <= i < requests@.len() ==> (#[trigger] a.query_conscious@[i])@
                        == conscious_refs_all(old(system)@, lowered(batch_words(requests@[i].query@)))
            },
    {
        let union = union_words_of(requests);
        let k = match union.len().checked_mul(requests.len()) {
            Some(k) => k,
            None => return None,
        };
        if !system.has_headroom(k) {
            return None;
        }
        Some(BatchQueryEngine::batch_activate(system, requests))
    }
}

/// The position of `w` among `words`, which holds it.
fn index_of_word(words: &Vec<String>, w: &str) -> (j: usize)
    requires
        strings_view(words@).contains(w@),
    ensures
        j < words@.len(),
        strings_view(words@)[j as int] == w@,
{
    let ghost x = choose|x: int| 0 <= x < strings_view(words@).len() && strings_view(words@)[x] == w@;
    let mut i: usize = 0;
    while i < words.len()
        invariant
            i <= words@.len(),
            0 <= x < words@.len(),
            strings_view(words@)[x] == w@,
            forall|k: int| 0 <= k < i ==> words@[k]@ != w@,
        decreases words.len() - i,
    {
        if str_eq(words[i].as_str(), w) {
            return i;
        }
        i = i + 1;
    }
    assert(words@[x]@ == w@);
    0
}

proof fn lemma_batch_activations_len_prefix(qs: Seq<Seq<char>>, union: Seq<Seq<char>>, k: int)
    requires
        0 <= k <= union.len(),
    ensures
        batch_activations(qs, union.take(k)).len() <= batch_activations(qs, union).len(),
    decreases union.len() - k,
{
    if k < union.len() {
        lemma_batch_activations_len_prefix(qs, union, k + 1);
        lemma_batch_activations_prefix(qs, union, k);
    } else {
        assert(union.take(k) == union);
    }
}

} // verus!
