//! Tokenization and sentence splitting.
//!
//! Words are lowercase runs of word characters and apostrophes; no stemming
//! and no stop-word removal (IDF handles frequency).
use vstd::prelude::*;

use crate::episode::Episode;
use crate::neighborhood::{Neighborhood, NeighborhoodType, NeighborhoodView};
use crate::text::{
    char_vecs_view, chars_of, class_pred, is_white_space, is_ws, lowercase, slice_chars,
    split_whitespace_chars, split_ws, string_from_chars, strings_view, strip_leading,
    strip_trailing, to_lowercase, trim_apostrophes, trim_chars, trim_ws, TrimClass,
};
use crate::time::iso8601;
use vstd::string::StringExecFns;

verus! {

/// Pattern of the characters that do not belong to any token.
pub const NON_WORD_PATTERN: &'static str = "[^\\w\\s']";

/// What `Regex::new(pattern)` followed by `replace_all(text, rep)` yields:
/// `None` when the pattern does not compile.
pub uninterp spec fn regex_replaced(pattern: Seq<char>, text: Seq<char>, rep: Seq<char>) -> Option<
    Seq<char>,
>;

/// `regex::Regex::replace_all` (after `Regex::new`).
#[verifier::external_body]
fn regex_replace_all(pattern: &str, text: &str, rep: &str) -> (r: Option<String>)
    ensures
        match r {
            Some(t) => regex_replaced(pattern@, text@, rep@) == Some(t@),
            None => regex_replaced(pattern@, text@, rep@).is_none(),
        },
{
    match regex::Regex::new(pattern) {
        Ok(re) => Some(re.replace_all(text, rep).into_owned()),
        Err(_) => None,
    }
}

/// The text with every non-word character replaced by a space.
pub open spec fn blanked(text: Seq<char>) -> Seq<char> {
    match regex_replaced(NON_WORD_PATTERN@, text, " "@) {
        Some(t) => t,
        None => text,
    }
}

/// Fields trimmed of apostrophes, with the fields that become empty dropped.
pub open spec fn trimmed_tokens(fields: Seq<Seq<char>>) -> Seq<Seq<char>>
    decreases fields.len(),
{
    if fields.len() == 0 {
        seq![]
    } else {
        let prev = trimmed_tokens(fields.drop_last());
        let t = trim_apostrophes(fields.last());
        if t.len() > 0 {
            prev.push(t)
        } else {
            prev
        }
    }
}

/// The tokens of `text`.
pub open spec fn tokens_of(text: Seq<char>) -> Seq<Seq<char>> {
    trimmed_tokens(split_ws(lowercase(blanked(text))))
}

/// Tokenize text into lowercase words, keeping apostrophes inside words
/// ("don't"). No stemming, no stop-word removal.
pub fn tokenize(text: &str) -> (tokens: Vec<String>)
    ensures
        strings_view(tokens@) == tokens_of(text@),
{
    let cleaned = match regex_replace_all(NON_WORD_PATTERN, text, " ") {
        Some(t) => t,
        None => text.to_owned(),
    };
    assert(cleaned@ == blanked(text@));
    let lower = to_lowercase(cleaned.as_str());
    split_tokens(lower.as_str())
}

/// The tokens of a text whose non-word characters are already blanked and
/// which is already lowercased: its whitespace-separated fields, each
/// trimmed of leading and trailing apostrophes, the empty ones dropped.
pub fn split_tokens(lowered: &str) -> (tokens: Vec<String>)
    ensures
        strings_view(tokens@) == trimmed_tokens(split_ws(lowered@)),
{
    let chars = chars_of(lowered);
    let fields = split_whitespace_chars(&chars);
    let ghost fv = char_vecs_view(fields@);
    let mut out: Vec<String> = Vec::new();
    let mut i: usize = 0;
    while i < fields.len()
        invariant
            i <= fields@.len(),
            fv == char_vecs_view(fields@),
            strings_view(out@) == trimmed_tokens(fv.take(i as int)),
        decreases fields.len() - i,
    {
        assert(fv.take(i + 1).drop_last() == fv.take(i as int));
        assert(fv.take(i + 1).last() == fields@[i as int]@);
        let t = trim_chars(&fields[i], &TrimClass::Apostrophe);
        if t.len() > 0 {
            let ghost before = strings_view(out@);
            let s = string_from_chars(t.as_slice());
            out.push(s);
            assert(strings_view(out@) =~= before.push(t@));
        }
        i = i + 1;
    }
    assert(fv.take(fv.len() as int) == fv);
    out
}

/// Every token is non-empty, holds no whitespace, and neither begins nor
/// ends with an apostrophe.
pub proof fn lemma_token_shape(text: Seq<char>)
    ensures
        forall|i: int|
            0 <= i < tokens_of(text).len() ==> {
                let t = #[trigger] tokens_of(text)[i];
                &&& t.len() > 0
                &&& t[0] != '\''
                &&& t.last() != '\''
                &&& forall|j: int| 0 <= j < t.len() ==> !is_white_space(#[trigger] t[j])
            },
{
    let fields = split_ws(lowercase(blanked(text)));
    crate::text::lemma_split_ws_fields(lowercase(blanked(text)));
    assert forall|i: int, j: int| 0 <= i < fields.len() && 0 <= j < fields[i].len() implies !is_white_space(
        #[trigger] fields[i][j],
    ) by {
        assert(fields[i].len() > 0);
    }
    lemma_trimmed_tokens_shape(fields);
}

proof fn lemma_trimmed_tokens_shape(fields: Seq<Seq<char>>)
    requires
        forall|i: int, j: int|
            0 <= i < fields.len() && 0 <= j < fields[i].len() ==> !is_white_space(#[trigger] fields[i][j]),
    ensures
        forall|i: int|
            0 <= i < trimmed_tokens(fields).len() ==> {
                let t = #[trigger] trimmed_tokens(fields)[i];
                &&& t.len() > 0
                &&& t[0] != '\''
                &&& t.last() != '\''
                &&& forall|j: int| 0 <= j < t.len() ==> !is_white_space(#[trigger] t[j])
            },
    decreases fields.len(),
{
    if fields.len() > 0 {
        let init = fields.drop_last();
        assert forall|i: int, j: int| 0 <= i < init.len() && 0 <= j < init[i].len() implies !is_white_space(
            #[trigger] init[i][j],
        ) by {
            assert(init[i] == fields[i]);
        }
        lemma_trimmed_tokens_shape(init);
        let f = fields.last();
        assert(f == fields[fields.len() - 1]);
        crate::text::lemma_trim_apostrophes_shape(f);
        let prev = trimmed_tokens(init);
        let t = trim_apostrophes(f);
        if t.len() > 0 {
            assert forall|i: int| 0 <= i < prev.push(t).len() implies {
                let u = #[trigger] prev.push(t)[i];
                &&& u.len() > 0
                &&& u[0] != '\''
                &&& u.last() != '\''
                &&& forall|j: int| 0 <= j < u.len() ==> !is_white_space(#[trigger] u[j])
            } by {
                if i < prev.len() {
                    assert(prev.push(t)[i] == prev[i]);
                } else {
                    assert forall|j: int| 0 <= j < t.len() implies !is_white_space(#[trigger] t[j]) by {
                        let k = choose|k: int| 0 <= k < f.len() && f[k] == t[j];
                        assert(fields[fields.len() - 1][k] == f[k]);
                    }
                }
            }
        }
    }
}

/// Appending a whitespace-free word to a text that is empty or ends in
/// whitespace adds that word as one more field.
proof fn lemma_split_ws_append_word(s: Seq<char>, t: Seq<char>)
    requires
        t.len() > 0,
        forall|j: int| 0 <= j < t.len() ==> !is_white_space(#[trigger] t[j]),
        s.len() == 0 || is_white_space(s.last()),
    ensures
        split_ws(s + t) == split_ws(s).push(t),
    decreases t.len(),
{
    let st = s + t;
    assert(st.last() == t.last());
    assert(!is_white_space(t[t.len() - 1]));
    if t.len() == 1 {
        assert(st.drop_last() =~= s);
        assert(t =~= seq![t.last()]);
        if s.len() > 0 {
            assert(st[st.len() - 2] == s.last());
        }
    } else {
        lemma_split_ws_append_word(s, t.drop_last());
        assert(st.drop_last() =~= s + t.drop_last());
        assert(st[st.len() - 2] == t[t.len() - 2]);
        assert(!is_white_space(t[t.len() - 2]));
        assert(t.drop_last().push(t.last()) =~= t);
    }
}

/// Whitespace-free, non-empty words joined with single spaces split back
/// into those words.
proof fn lemma_split_join_space(r: Seq<Seq<char>>)
    requires
        forall|i: int| 0 <= i < r.len() ==> (#[trigger] r[i]).len() > 0,
        forall|i: int, j: int| 0 <= i < r.len() && 0 <= j < r[i].len() ==> !is_white_space(#[trigger] r[i][j]),
    ensures
        split_ws(join_space(r)) == r,
    decreases r.len(),
{
    if r.len() == 1 {
        lemma_split_ws_append_word(seq![], r[0]);
        assert(Seq::<char>::empty() + r[0] =~= r[0]);
        assert(Seq::<Seq<char>>::empty().push(r[0]) =~= r);
    } else if r.len() > 1 {
        let init = r.drop_last();
        assert forall|i: int| 0 <= i < init.len() implies (#[trigger] init[i]).len() > 0 by {
            assert(init[i] == r[i]);
        }
        assert forall|i: int, j: int| 0 <= i < init.len() && 0 <= j < init[i].len() implies !is_white_space(
            #[trigger] init[i][j],
        ) by {
            assert(init[i] == r[i]);
        }
        lemma_split_join_space(init);
        let joined = join_space(init);
        let spaced = joined + seq![' '];
        assert(spaced.drop_last() =~= joined);
        assert(spaced.last() == ' ');
        assert(is_white_space(' '));
        assert(split_ws(spaced) == split_ws(joined));
        let t = r.last();
        assert(t == r[r.len() - 1]);
        assert forall|j: int| 0 <= j < t.len() implies !is_white_space(#[trigger] t[j]) by {
            assert(t[j] == r[r.len() - 1][j]);
        }
        lemma_split_ws_append_word(spaced, t);
        assert(join_space(r) == spaced + t);
        assert(init.push(t) =~= r);
    }
}

/// Words that are non-empty and neither begin nor end with an apostrophe
/// come through the apostrophe trim unchanged.
proof fn lemma_trimmed_tokens_fixed(r: Seq<Seq<char>>)
    requires
        forall|i: int| 0 <= i < r.len() ==> (#[trigger] r[i]).len() > 0 && r[i][0] != '\'' && r[i].last() != '\'',
    ensures
        trimmed_tokens(r) == r,
    decreases r.len(),
{
    if r.len() > 0 {
        let init = r.drop_last();
        assert forall|i: int| 0 <= i < init.len() implies (#[trigger] init[i]).len() > 0 && init[i][0] != '\''
            && init[i].last() != '\'' by {
            assert(init[i] == r[i]);
        }
        lemma_trimmed_tokens_fixed(init);
        let t = r.last();
        assert(t == r[r.len() - 1]);
        let p = class_pred(TrimClass::Apostrophe);
        assert(!p(t[0]));
        assert(strip_leading(t, p) == t);
        assert(!p(t.last()));
        assert(strip_trailing(t, p) == t);
        assert(trim_apostrophes(t) == t);
        assert(init.push(t) =~= r);
    }
}

/// Splitting the tokens of a text, joined with single spaces, gives those
/// tokens back: the splitting and trimming half of `tokenize` is idempotent.
pub proof fn lemma_tokens_resplit(text: Seq<char>)
    ensures
        trimmed_tokens(split_ws(join_space(tokens_of(text)))) == tokens_of(text),
{
    let r = tokens_of(text);
    lemma_token_shape(text);
    assert forall|i: int| 0 <= i < r.len() implies (#[trigger] r[i]).len() > 0 by {}
    assert forall|i: int, j: int| 0 <= i < r.len() && 0 <= j < r[i].len() implies !is_white_space(
        #[trigger] r[i][j],
    ) by {}
    lemma_split_join_space(r);
    lemma_trimmed_tokens_fixed(r);
}

/// Tokenizing the tokens of a text, joined with single spaces, gives those
/// tokens back wherever blanking and lowercasing leave the joined text as it
/// is.
pub proof fn lemma_tokenize_idempotent(text: Seq<char>)
    requires
        blanked(join_space(tokens_of(text))) == join_space(tokens_of(text)),
        lowercase(join_space(tokens_of(text))) == join_space(tokens_of(text)),
    ensures
        tokens_of(join_space(tokens_of(text))) == tokens_of(text),
{
    lemma_tokens_resplit(text);
}

/// Number of tokens of `text`: the length of `tokenize(text)`.
pub fn token_count(text: &str) -> (n: usize)
    ensures
        n == tokens_of(text@).len(),
{
    let tokens = tokenize(text);
    tokens.len()
}

/// A sentence ends at `i` when `s[i]` is `.`, `!` or `?` and whitespace
/// follows (the pattern `[.!?]\s+`).
pub open spec fn is_sentence_end(s: Seq<char>, i: int) -> bool {
    0 <= i && i + 1 < s.len() && (s[i] == '.' || s[i] == '!' || s[i] == '?') && is_white_space(
        s[i + 1],
    )
}

/// The first sentence end at or after `i`, or `s.len()` when there is none.
pub open spec fn next_sentence_end(s: Seq<char>, i: int) -> int
    decreases s.len() - i,
{
    if i < 0 || i >= s.len() {
        s.len() as int
    } else if is_sentence_end(s, i) {
        i
    } else {
        next_sentence_end(s, i + 1)
    }
}

/// End of the whitespace run that starts at `j`.
pub open spec fn ws_run_end(s: Seq<char>, j: int) -> int
    decreases s.len() - j,
{
    if 0 <= j < s.len() && is_white_space(s[j]) {
        ws_run_end(s, j + 1)
    } else {
        j
    }
}

/// Sentences of `s` from position `pos` on: text up to and including each
/// terminal punctuation, trimmed, empty pieces dropped; then the trimmed
/// remainder if it is not empty.
pub open spec fn sentences_from(s: Seq<char>, pos: int) -> Seq<Seq<char>>
    decreases s.len() - pos,
{
    if pos < 0 || pos > s.len() {
        seq![]
    } else {
        let i = next_sentence_end(s, pos);
        if i < s.len() {
            let e = ws_run_end(s, i + 1);
            let t = trim_ws(s.subrange(pos, i + 1));
            let rest = if pos < e <= s.len() {
                sentences_from(s, e)
            } else {
                seq![]
            };
            if t.len() > 0 {
                seq![t] + rest
            } else {
                rest
            }
        } else {
            let t = trim_ws(s.subrange(pos, s.len() as int));
            if t.len() > 0 {
                seq![t]
            } else {
                seq![]
            }
        }
    }
}

proof fn lemma_next_sentence_end_bounds(s: Seq<char>, i: int)
    requires
        0 <= i <= s.len(),
    ensures
        i <= next_sentence_end(s, i) <= s.len(),
        next_sentence_end(s, i) < s.len() ==> is_sentence_end(s, next_sentence_end(s, i)),
        forall|j: int| i <= j < next_sentence_end(s, i) ==> !is_sentence_end(s, j),
    decreases s.len() - i,
{
    if i < s.len() && !is_sentence_end(s, i) {
        lemma_next_sentence_end_bounds(s, i + 1);
    }
}

proof fn lemma_next_sentence_end_skip(s: Seq<char>, i: int, k: int)
    requires
        0 <= i <= k <= s.len(),
        forall|j: int| i <= j < k ==> !is_sentence_end(s, j),
    ensures
        next_sentence_end(s, i) == next_sentence_end(s, k),
    decreases k - i,
{
    if i < k {
        lemma_next_sentence_end_skip(s, i + 1, k);
    }
}

proof fn lemma_ws_run_end_at(s: Seq<char>, j: int, e: int)
    requires
        0 <= j <= e <= s.len(),
        forall|k: int| j <= k < e ==> is_white_space(#[trigger] s[k]),
        e == s.len() || !is_white_space(s[e]),
    ensures
        ws_run_end(s, j) == e,
    decreases e - j,
{
    if j < e {
        lemma_ws_run_end_at(s, j + 1, e);
    }
}

/// The trimmed characters `s[a..b]`, as a vector.
fn trimmed_piece(s: &Vec<char>, a: usize, b: usize) -> (r: Vec<char>)
    requires
        a <= b <= s@.len(),
    ensures
        r@ == trim_ws(s@.subrange(a as int, b as int)),
{
    let piece = slice_chars(s, a, b);
    trim_chars(&piece, &TrimClass::Whitespace)
}

/// Split text into sentences at `.`, `!` or `?` followed by whitespace; the
/// punctuation stays with its sentence.
pub fn split_sentences(text: &str) -> (sentences: Vec<String>)
    ensures
        strings_view(sentences@) == sentences_from(text@, 0),
{
    let s = chars_of(text);
    let n = s.len();
    let mut out: Vec<String> = Vec::new();
    let mut last: usize = 0;
    let mut i: usize = 0;
    while i < n
        invariant
            n == s@.len(),
            last <= i <= n,
            forall|j: int| last <= j < i ==> !is_sentence_end(s@, j),
            strings_view(out@) + sentences_from(s@, last as int) == sentences_from(s@, 0),
        decreases n - i,
    {
        let boundary = i + 1 < n && (s[i] == '.' || s[i] == '!' || s[i] == '?') && is_ws(s[i + 1]);
        if boundary {
            proof {
                lemma_next_sentence_end_skip(s@, last as int, i as int);
            }
            let mut e = i + 1;
            while e < n && is_ws(s[e])
                invariant
                    i + 1 <= e <= n,
                    n == s@.len(),
                    forall|k: int| i + 1 <= k < e ==> is_white_space(#[trigger] s@[k]),
                decreases n - e,
            {
                e = e + 1;
            }
            proof {
                lemma_ws_run_end_at(s@, i + 1, e as int);
            }
            let t = trimmed_piece(&s, last, i + 1);
            let ghost rest = sentences_from(s@, e as int);
            let ghost before = strings_view(out@);
            assert(sentences_from(s@, last as int) == if t@.len() > 0 {
                seq![t@] + rest
            } else {
                rest
            });
            if t.len() > 0 {
                let st = string_from_chars(t.as_slice());
                out.push(st);
                assert(strings_view(out@) =~= before.push(t@));
                assert(before.push(t@) + rest =~= before + (seq![t@] + rest));
            }
            last = e;
            i = e;
        } else {
            assert(!is_sentence_end(s@, i as int));
            i = i + 1;
        }
    }
    proof {
        lemma_next_sentence_end_skip(s@, last as int, n as int);
    }
    let t = trimmed_piece(&s, last, n);
    let ghost before = strings_view(out@);
    if t.len() > 0 {
        let st = string_from_chars(t.as_slice());
        out.push(st);
        assert(strings_view(out@) =~= before.push(t@));
        assert(before.push(t@) =~= before + seq![t@]);
    } else {
        assert(before + seq![] =~= before);
    }
    out
}

/// Number of sentences grouped into one neighborhood.
pub const SENTENCES_PER_NEIGHBORHOOD: usize = 3;

/// Sentences `chunk` joined with single spaces.
pub open spec fn join_space(parts: Seq<Seq<char>>) -> Seq<char>
    decreases parts.len(),
{
    if parts.len() == 0 {
        seq![]
    } else if parts.len() == 1 {
        parts[0]
    } else {
        join_space(parts.drop_last()) + seq![' '] + parts.last()
    }
}

/// The texts of the chunks of `k` consecutive sentences (the last chunk may be
/// shorter).
pub open spec fn chunk_texts(sentences: Seq<Seq<char>>, k: nat) -> Seq<Seq<char>>
    decreases sentences.len(),
{
    if sentences.len() == 0 || k == 0 {
        seq![]
    } else if sentences.len() <= k {
        seq![join_space(sentences)]
    } else {
        seq![join_space(sentences.take(k as int))] + chunk_texts(sentences.skip(k as int), k)
    }
}

/// The chunk texts of `text` whose tokens are not empty, with those tokens:
/// what becomes one neighborhood each.
pub open spec fn ingest_chunks(chunks: Seq<Seq<char>>) -> Seq<(Seq<char>, Seq<Seq<char>>)>
    decreases chunks.len(),
{
    if chunks.len() == 0 {
        seq![]
    } else {
        let prev = ingest_chunks(chunks.drop_last());
        let toks = tokens_of(chunks.last());
        if toks.len() > 0 {
            prev.push((chunks.last(), toks))
        } else {
            prev
        }
    }
}

/// Join strings with single spaces.
fn join_with_space(parts: &Vec<String>, from: usize, to: usize) -> (r: String)
    requires
        from < to <= parts@.len(),
    ensures
        r@ == join_space(strings_view(parts@).subrange(from as int, to as int)),
{
    let ghost v = strings_view(parts@);
    let mut r = parts[from].clone();
    assert(v.subrange(from as int, from + 1) =~= seq![v[from as int]]);
    let mut i = from + 1;
    while i < to
        invariant
            from < i <= to,
            to <= parts@.len(),
            v == strings_view(parts@),
            r@ == join_space(v.subrange(from as int, i as int)),
        decreases to - i,
    {
        let ghost before = r@;
        r.append(" ");
        r.append(parts[i].as_str());
        proof {
            reveal_strlit(" ");
            assert(v.subrange(from as int, i + 1).drop_last() =~= v.subrange(from as int, i as int));
            assert(r@ =~= before + seq![' '] + v[i as int]);
        }
        i = i + 1;
    }
    r
}

/// One step of chunking: the chunks from `at` are the chunk that starts at
/// `at`, then the chunks from its end.
proof fn lemma_chunk_texts_step(sentences: Seq<Seq<char>>, k: nat, at: int, end: int)
    requires
        k > 0,
        0 <= at < sentences.len(),
        end == if at + k < sentences.len() {
            at + k
        } else {
            sentences.len() as int
        },
    ensures
        chunk_texts(sentences.skip(at), k) == seq![join_space(sentences.subrange(at, end))]
            + chunk_texts(sentences.skip(end), k),
{
    let rest = sentences.skip(at);
    if rest.len() <= k {
        assert(rest =~= sentences.subrange(at, sentences.len() as int));
        assert(sentences.skip(sentences.len() as int) =~= Seq::<Seq<char>>::empty());
        assert(seq![join_space(rest)] + seq![] =~= seq![join_space(rest)]);
    } else {
        assert(rest.take(k as int) =~= sentences.subrange(at, at + k));
        assert(rest.skip(k as int) =~= sentences.skip(at + k));
    }
}

/// The neighborhood `n` is the fresh one made from the chunk text `c.0` and
/// its tokens `c.1`.
pub open spec fn built_from(n: NeighborhoodView, c: (Seq<char>, Seq<Seq<char>>)) -> bool {
    &&& n.source_text == c.0
    &&& n.words() == c.1
    &&& n.wf()
    &&& n.total_activation() == 0
    &&& n.neighborhood_type == NeighborhoodType::Memory
}

/// What `ingest_text` makes of `text`: for each chunk of three sentences
/// whose tokens are not empty, its text and its tokens.
pub open spec fn ingested(text: Seq<char>) -> Seq<(Seq<char>, Seq<Seq<char>>)> {
    ingest_chunks(chunk_texts(sentences_from(text, 0), SENTENCES_PER_NEIGHBORHOOD as nat))
}

/// Ingest text into an episode: each chunk of three sentences with at least
/// one token becomes one neighborhood, in order.
pub fn ingest_text(text: &str, name: Option<&str>) -> (episode: Episode)
    ensures
        episode@.name == match name {
            Some(n) => n@,
            None => Seq::empty(),
        },
        !episode@.is_conscious,
        exists|secs: nat| episode@.timestamp == iso8601(secs),
        episode@.neighborhoods.len() == ingested(text@).len(),
        forall|i: int|
            0 <= i < episode@.neighborhoods.len() ==> built_from(
                #[trigger] episode@.neighborhoods[i],
                ingested(text@)[i],
            ),
{
    proof {
        reveal_strlit("");
    }
    let mut episode = Episode::new(
        match name {
            Some(n) => n,
            None => "",
        },
    );
    let sentences = split_sentences(text);
    let ghost sv = strings_view(sentences@);
    let ghost chunks = chunk_texts(sv, SENTENCES_PER_NEIGHBORHOOD as nat);
    let k = SENTENCES_PER_NEIGHBORHOOD;
    let mut at: usize = 0;
    let ghost mut done: Seq<Seq<char>> = seq![];
    assert(sv.skip(0) == sv);
    assert(chunks == done + chunks);
    while at < sentences.len()
        invariant
            k == SENTENCES_PER_NEIGHBORHOOD,
            at <= sentences@.len(),
            sv == strings_view(sentences@),
            chunks == chunk_texts(sv, k as nat),
            chunks == done + chunk_texts(sv.skip(at as int), k as nat),
            !episode@.is_conscious,
            exists|secs: nat| episode@.timestamp == iso8601(secs),
            episode@.name == match name {
                Some(n) => n@,
                None => Seq::empty(),
            },
            episode@.neighborhoods.len() == ingest_chunks(done).len(),
            forall|i: int|
                0 <= i < episode@.neighborhoods.len() ==> built_from(
                    #[trigger] episode@.neighborhoods[i],
                    ingest_chunks(done)[i],
                ),
        decreases sentences.len() - at,
    {
        let end = if sentences.len() - at > k {
            at + k
        } else {
            sentences.len()
        };
        proof {
            lemma_chunk_texts_step(sv, k as nat, at as int, end as int);
        }
        let combined = join_with_space(&sentences, at, end);
        let tokens = tokenize(combined.as_str());
        let ghost before = done;
        let ghost before_eps = episode@.neighborhoods;
        proof {
            done = done.push(combined@);
            assert(done.drop_last() == before);
            assert(done.last() == combined@);
            assert(before + (seq![combined@] + chunk_texts(sv.skip(end as int), k as nat)) =~= done
                + chunk_texts(sv.skip(end as int), k as nat));
        }
        if tokens.len() > 0 {
            let nb = Neighborhood::from_tokens(&tokens, combined.as_str());
            episode.add_neighborhood(nb);
            assert(strings_view(tokens@).len() == tokens@.len());
            assert(ingest_chunks(done) == ingest_chunks(before).push(
                (combined@, tokens_of(combined@)),
            ));
            assert(episode@.neighborhoods == before_eps.push(nb@));
            assert forall|i: int| 0 <= i < episode@.neighborhoods.len() implies built_from(
                #[trigger] episode@.neighborhoods[i],
                ingest_chunks(done)[i],
            ) by {
                if i < before_eps.len() {
                    assert(episode@.neighborhoods[i] == before_eps[i]);
                    assert(ingest_chunks(done)[i] == ingest_chunks(before)[i]);
                } else {
                    assert(episode@.neighborhoods[i] == nb@);
                }
            }
        } else {
            assert(strings_view(tokens@).len() == tokens@.len());
            assert(ingest_chunks(done) == ingest_chunks(before));
        }
        at = end;
    }
    assert(sv.skip(sv.len() as int) =~= Seq::<Seq<char>>::empty());
    assert(done + Seq::<Seq<char>>::empty() =~= done);
    episode
}

} // verus!
