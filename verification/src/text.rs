//! Character-level text primitives shared by the tokenizer, the transcript
//! reader and the prompt builders.
//!
//! Text is handled as sequences of `char` (the view of `str` and `String`).
use vstd::prelude::*;
use vstd::std_specs::iter::IteratorSpec;

verus! {

/// Unicode `White_Space` property (the set `char::is_whitespace` and the
/// regex class `\s` stand for).
pub open spec fn is_white_space(c: char) -> bool {
    let u = c as u32;
    ||| u == 0x20
    ||| (0x09 <= u && u <= 0x0d)
    ||| u == 0x85
    ||| u == 0xa0
    ||| u == 0x1680
    ||| (0x2000 <= u && u <= 0x200a)
    ||| u == 0x2028
    ||| u == 0x2029
    ||| u == 0x202f
    ||| u == 0x205f
    ||| u == 0x3000
}

/// Executable `White_Space` test.
pub fn is_ws(c: char) -> (b: bool)
    ensures
        b == is_white_space(c),
{
    let u = c as u32;
    u == 0x20 || (0x09 <= u && u <= 0x0d) || u == 0x85 || u == 0xa0 || u == 0x1680 || (0x2000
        <= u && u <= 0x200a) || u == 0x2028 || u == 0x2029 || u == 0x202f || u == 0x205f || u
        == 0x3000
}

/// Maximal runs of non-whitespace characters, in order (what
/// `split_whitespace` yields).
pub open spec fn split_ws(s: Seq<char>) -> Seq<Seq<char>>
    decreases s.len(),
{
    if s.len() == 0 {
        seq![]
    } else {
        let prev = split_ws(s.drop_last());
        let c = s.last();
        if is_white_space(c) {
            prev
        } else if s.len() == 1 || is_white_space(s[s.len() - 2]) {
            prev.push(seq![c])
        } else {
            prev.drop_last().push(prev.last().push(c))
        }
    }
}

/// A non-empty text whose last char is not whitespace has at least one field.
pub proof fn lemma_split_ws_nonempty(s: Seq<char>)
    requires
        s.len() > 0,
        !is_white_space(s.last()),
    ensures
        split_ws(s).len() > 0,
    decreases s.len(),
{
}

/// Every field produced by `split_ws` is non-empty and free of whitespace.
pub proof fn lemma_split_ws_fields(s: Seq<char>)
    ensures
        forall|i: int|
            0 <= i < split_ws(s).len() ==> #[trigger] split_ws(s)[i].len() > 0 && forall|j: int|
                0 <= j < split_ws(s)[i].len() ==> !is_white_space(#[trigger] split_ws(s)[i][j]),
    decreases s.len(),
{
    if s.len() > 0 {
        lemma_split_ws_fields(s.drop_last());
        let prev = split_ws(s.drop_last());
        if !is_white_space(s.last()) && !(s.len() == 1 || is_white_space(s[s.len() - 2])) {
            lemma_split_ws_nonempty(s.drop_last());
            let last = prev.last();
            assert forall|j: int| 0 <= j < last.push(s.last()).len() implies !is_white_space(
                #[trigger] last.push(s.last())[j],
            ) by {
                if j < last.len() {
                    assert(prev[prev.len() - 1] == last);
                }
            }
        }
    }
}

/// The character sequences held by a vector of character vectors.
pub open spec fn char_vecs_view(v: Seq<Vec<char>>) -> Seq<Seq<char>> {
    v.map_values(|x: Vec<char>| x@)
}

/// The character sequences held by a vector of strings.
pub open spec fn strings_view(v: Seq<String>) -> Seq<Seq<char>> {
    v.map_values(|x: String| x@)
}

/// Splits `s` into its whitespace-separated fields.
pub fn split_whitespace_chars(s: &Vec<char>) -> (fields: Vec<Vec<char>>)
    ensures
        char_vecs_view(fields@) == split_ws(s@),
{
    let mut out: Vec<Vec<char>> = Vec::new();
    let mut cur: Vec<char> = Vec::new();
    let mut i: usize = 0;
    while i < s.len()
        invariant
            i <= s.len(),
            cur@.len() > 0 ==> i > 0 && !is_white_space(s@[i - 1]),
            i > 0 && !is_white_space(s@[i - 1]) ==> cur@.len() > 0,
            split_ws(s@.take(i as int)) == if cur@.len() > 0 {
                char_vecs_view(out@).push(cur@)
            } else {
                char_vecs_view(out@)
            },
        decreases s.len() - i,
    {
        let c = s[i];
        let ghost prev = split_ws(s@.take(i as int));
        let ghost old_out = char_vecs_view(out@);
        let ghost old_cur = cur@;
        assert(s@.take(i + 1).drop_last() == s@.take(i as int));
        assert(s@.take(i + 1).last() == c);
        if i > 0 {
            assert(s@.take(i + 1)[i - 1] == s@[i - 1]);
        }
        if is_ws(c) {
            if cur.len() > 0 {
                let done = cur;
                out.push(done);
                assert(char_vecs_view(out@) =~= old_out.push(old_cur));
                cur = Vec::new();
            }
        } else {
            cur.push(c);
            assert(cur@ == old_cur.push(c));
            proof {
                if i > 0 && !is_white_space(s@[i - 1]) {
                    assert(prev == old_out.push(old_cur));
                    assert(prev.drop_last() =~= old_out);
                    assert(prev.last() == old_cur);
                } else {
                    assert(old_cur.push(c) =~= seq![c]);
                }
            }
        }
        i = i + 1;
    }
    assert(s@.take(s@.len() as int) == s@);
    if cur.len() > 0 {
        let ghost old_out = char_vecs_view(out@);
        let ghost c = cur@;
        out.push(cur);
        assert(char_vecs_view(out@) =~= old_out.push(c));
    }
    out
}

/// `s` with every leading character satisfying `p` removed.
pub open spec fn strip_leading(s: Seq<char>, p: spec_fn(char) -> bool) -> Seq<char>
    decreases s.len(),
{
    if s.len() > 0 && p(s[0]) {
        strip_leading(s.drop_first(), p)
    } else {
        s
    }
}

/// `s` with every trailing character satisfying `p` removed.
pub open spec fn strip_trailing(s: Seq<char>, p: spec_fn(char) -> bool) -> Seq<char>
    decreases s.len(),
{
    if s.len() > 0 && p(s.last()) {
        strip_trailing(s.drop_last(), p)
    } else {
        s
    }
}

/// `s` with leading and trailing characters satisfying `p` removed.
pub open spec fn trim_by(s: Seq<char>, p: spec_fn(char) -> bool) -> Seq<char> {
    strip_trailing(strip_leading(s, p), p)
}

/// The characters that a trim removes.
pub enum TrimClass {
    /// Unicode `White_Space` (what `str::trim` removes).
    Whitespace,
    /// The apostrophe `'`.
    Apostrophe,
}

/// Membership of `c` in the class `k`.
pub open spec fn in_class(k: TrimClass, c: char) -> bool {
    match k {
        TrimClass::Whitespace => is_white_space(c),
        TrimClass::Apostrophe => c == '\'',
    }
}

/// The class `k` as a predicate.
pub open spec fn class_pred(k: TrimClass) -> spec_fn(char) -> bool {
    |c: char| in_class(k, c)
}

/// Whitespace trim (`str::trim`).
pub open spec fn trim_ws(s: Seq<char>) -> Seq<char> {
    trim_by(s, class_pred(TrimClass::Whitespace))
}

/// Apostrophe trim (removes `^'+` and `'+$`).
pub open spec fn trim_apostrophes(s: Seq<char>) -> Seq<char> {
    trim_by(s, class_pred(TrimClass::Apostrophe))
}

proof fn lemma_strip_leading_shape(s: Seq<char>, p: spec_fn(char) -> bool)
    ensures
        strip_leading(s, p).len() <= s.len(),
        forall|j: int|
            0 <= j < strip_leading(s, p).len() ==> #[trigger] strip_leading(s, p)[j] == s[j + s.len()
                - strip_leading(s, p).len()],
        strip_leading(s, p).len() > 0 ==> !p(strip_leading(s, p)[0]),
    decreases s.len(),
{
    if s.len() > 0 && p(s[0]) {
        lemma_strip_leading_shape(s.drop_first(), p);
    }
}

proof fn lemma_strip_trailing_shape(s: Seq<char>, p: spec_fn(char) -> bool)
    ensures
        strip_trailing(s, p).len() <= s.len(),
        forall|j: int| 0 <= j < strip_trailing(s, p).len() ==> #[trigger] strip_trailing(s, p)[j] == s[j],
        strip_trailing(s, p).len() > 0 ==> !p(strip_trailing(s, p).last()),
    decreases s.len(),
{
    if s.len() > 0 && p(s.last()) {
        lemma_strip_trailing_shape(s.drop_last(), p);
    }
}

/// An apostrophe trim keeps characters of `s` only, and what it keeps, when
/// anything, neither begins nor ends with an apostrophe.
pub proof fn lemma_trim_apostrophes_shape(s: Seq<char>)
    ensures
        forall|j: int|
            0 <= j < trim_apostrophes(s).len() ==> exists|k: int| 0 <= k < s.len() && s[k] == #[trigger] trim_apostrophes(s)[j],
        trim_apostrophes(s).len() > 0 ==> trim_apostrophes(s)[0] != '\'' && trim_apostrophes(s).last() != '\'',
{
    let p = class_pred(TrimClass::Apostrophe);
    let l = strip_leading(s, p);
    let t = strip_trailing(l, p);
    lemma_strip_leading_shape(s, p);
    lemma_strip_trailing_shape(l, p);
    assert forall|j: int| 0 <= j < t.len() implies exists|k: int| 0 <= k < s.len() && s[k] == #[trigger] t[j] by {
        assert(t[j] == l[j]);
        assert(l[j] == s[j + s.len() - l.len()]);
    }
    if t.len() > 0 {
        assert(t[0] == l[0]);
        assert(!p(t[0]));
        assert(!p(t.last()));
    }
}

fn in_class_exec(k: &TrimClass, c: char) -> (b: bool)
    ensures
        b == in_class(*k, c),
{
    match k {
        TrimClass::Whitespace => is_ws(c),
        TrimClass::Apostrophe => c == '\'',
    }
}

proof fn lemma_strip_leading_at(s: Seq<char>, p: spec_fn(char) -> bool, a: int)
    requires
        0 <= a <= s.len(),
        forall|j: int| 0 <= j < a ==> p(#[trigger] s[j]),
        a == s.len() || !p(s[a]),
    ensures
        strip_leading(s, p) == s.subrange(a, s.len() as int),
    decreases a,
{
    if a > 0 {
        assert(p(s[0]));
        assert forall|j: int| 0 <= j < a - 1 implies p(#[trigger] s.drop_first()[j]) by {
            assert(s.drop_first()[j] == s[j + 1]);
        }
        lemma_strip_leading_at(s.drop_first(), p, a - 1);
        assert(s.drop_first().subrange(a - 1, s.len() - 1) == s.subrange(a, s.len() as int));
    } else {
        assert(s.subrange(0, s.len() as int) == s);
    }
}

proof fn lemma_strip_trailing_at(s: Seq<char>, p: spec_fn(char) -> bool, b: int)
    requires
        0 <= b <= s.len(),
        forall|j: int| b <= j < s.len() ==> p(#[trigger] s[j]),
        b == 0 || !p(s[b - 1]),
    ensures
        strip_trailing(s, p) == s.subrange(0, b),
    decreases s.len() - b,
{
    if b < s.len() {
        assert(p(s.last()));
        assert forall|j: int| b <= j < s.len() - 1 implies p(#[trigger] s.drop_last()[j]) by {
            assert(s.drop_last()[j] == s[j]);
        }
        lemma_strip_trailing_at(s.drop_last(), p, b);
        assert(s.drop_last().subrange(0, b) == s.subrange(0, b));
    } else {
        assert(s.subrange(0, s.len() as int) == s);
    }
}

/// Bounds `(a, b)` such that `trim_by(s, k) == s[a..b]`.
pub fn trim_bounds(s: &Vec<char>, k: &TrimClass) -> (r: (usize, usize))
    ensures
        r.0 <= r.1 <= s@.len(),
        trim_by(s@, class_pred(*k)) == s@.subrange(r.0 as int, r.1 as int),
{
    let ghost p = class_pred(*k);
    let mut a: usize = 0;
    while a < s.len() && in_class_exec(k, s[a])
        invariant
            a <= s.len(),
            forall|j: int| 0 <= j < a ==> p(#[trigger] s@[j]),
            p == class_pred(*k),
        decreases s.len() - a,
    {
        a = a + 1;
    }
    proof {
        lemma_strip_leading_at(s@, p, a as int);
    }
    let ghost t = s@.subrange(a as int, s@.len() as int);
    let mut b: usize = s.len();
    while b > a && in_class_exec(k, s[b - 1])
        invariant
            a <= b <= s.len(),
            t == s@.subrange(a as int, s@.len() as int),
            forall|j: int| b <= j < s.len() ==> p(#[trigger] s@[j]),
            p == class_pred(*k),
        decreases b,
    {
        b = b - 1;
    }
    proof {
        assert forall|j: int| b - a <= j < t.len() implies p(#[trigger] t[j]) by {
            assert(t[j] == s@[j + a]);
        }
        if b > a {
            assert(t[b - a - 1] == s@[b - 1]);
        }
        lemma_strip_trailing_at(t, p, b - a);
        assert(t.subrange(0, b - a) == s@.subrange(a as int, b as int));
    }
    (a, b)
}

/// The characters `s[a..b]` as a new vector.
pub fn slice_chars(s: &Vec<char>, a: usize, b: usize) -> (r: Vec<char>)
    requires
        a <= b <= s@.len(),
    ensures
        r@ == s@.subrange(a as int, b as int),
{
    let mut r: Vec<char> = Vec::new();
    let mut i = a;
    while i < b
        invariant
            a <= i <= b,
            b <= s@.len(),
            r@ == s@.subrange(a as int, i as int),
        decreases b - i,
    {
        r.push(s[i]);
        i = i + 1;
    }
    r
}

/// `s` trimmed of the class `k` at both ends.
pub fn trim_chars(s: &Vec<char>, k: &TrimClass) -> (r: Vec<char>)
    ensures
        r@ == trim_by(s@, class_pred(*k)),
{
    let (a, b) = trim_bounds(s, k);
    slice_chars(s, a, b)
}

/// The characters of `s`, in order.
pub(crate) fn chars_of(s: &str) -> (r: Vec<char>)
    ensures
        r@ == s@,
{
    broadcast use vstd::string::axiom_spec_iter, vstd::string::next_postcondition;

    let mut it = s.chars();
    let mut r: Vec<char> = Vec::new();
    assert(it.remaining() == s@);
    loop
        invariant
            r@ + it.remaining() == s@,
            it.decrease() is Some,
        ensures
            r@ == s@,
        decreases it.decrease()->0,
    {
        let ghost before = it.remaining();
        match it.next() {
            Some(c) => {
                r.push(c);
                assert(r@ + it.remaining() =~= s@) by {
                    assert(before =~= seq![c] + before.drop_first());
                }
            },
            None => {
                assert(r@ =~= s@);
                break;
            },
        }
    }
    r
}

/// A `String` holding exactly the characters of `v` (`FromIterator<char>`).
#[verifier::external_body]
pub(crate) fn string_from_chars(v: &[char]) -> (r: String)
    ensures
        r@ == v@,
{
    v.iter().collect()
}

/// What `str::to_lowercase` returns for a text (Unicode full lowercase
/// mapping, context-sensitive for final sigma).
pub uninterp spec fn lowercase(s: Seq<char>) -> Seq<char>;

/// `str::to_lowercase`.
#[verifier::external_body]
pub(crate) fn to_lowercase(s: &str) -> (r: String)
    ensures
        r@ == lowercase(s@),
{
    s.to_lowercase()
}

/// Whether `p` occurs in `s` starting at position `i`.
pub open spec fn occurs_at(s: Seq<char>, p: Seq<char>, i: int) -> bool {
    0 <= i && i + p.len() <= s.len() && s.subrange(i, i + p.len()) == p
}

/// Whether `s` begins with `p`.
pub open spec fn has_prefix(s: Seq<char>, p: Seq<char>) -> bool {
    occurs_at(s, p, 0)
}

/// Whether `p` occurs anywhere in `s`.
pub open spec fn contains_seq(s: Seq<char>, p: Seq<char>) -> bool {
    exists|i: int| occurs_at(s, p, i)
}

/// Exec test of `occurs_at`.
pub fn occurs_at_exec(s: &Vec<char>, p: &[char], i: usize) -> (b: bool)
    ensures
        b == occurs_at(s@, p@, i as int),
{
    if i > s.len() || p.len() > s.len() - i {
        return false;
    }
    let mut j: usize = 0;
    let n = p.len();
    let sl = s.len();
    while j < n
        invariant
            n == p@.len(),
            sl == s@.len(),
            j <= p@.len(),
            i <= s@.len(),
            i + p@.len() <= s@.len(),
            forall|k: int| 0 <= k < j ==> s@[i + k] == p@[k],
        decreases p.len() - j,
    {
        if s[i + j] != p[j] {
            assert(s@.subrange(i as int, i + p@.len())[j as int] != p@[j as int]);
            return false;
        }
        j = j + 1;
    }
    assert(s@.subrange(i as int, i + p@.len()) == p@);
    true
}

/// The first position at or after `from` where `p` occurs in `s`.
pub fn find_from(s: &Vec<char>, p: &[char], from: usize) -> (r: Option<usize>)
    ensures
        match r {
            Some(i) => from <= i && occurs_at(s@, p@, i as int) && forall|j: int|
                from <= j < i ==> !occurs_at(s@, p@, j),
            None => forall|j: int| from <= j ==> !occurs_at(s@, p@, j),
        },
{
    if from > s.len() {
        return None;
    }
    let mut i = from;
    while i < s.len()
        invariant
            from <= i <= s@.len(),
            forall|j: int| from <= j < i ==> !occurs_at(s@, p@, j),
        decreases s.len() - i,
    {
        if occurs_at_exec(s, p, i) {
            return Some(i);
        }
        i = i + 1;
    }
    if occurs_at_exec(s, p, i) {
        return Some(i);
    }
    None
}

/// The first position at or after `i` where `p` occurs in `s`, or `-1`.
pub open spec fn next_occurrence(s: Seq<char>, p: Seq<char>, i: int) -> int
    decreases s.len() + 1 - i,
{
    if i < 0 || i > s.len() {
        -1
    } else if occurs_at(s, p, i) {
        i
    } else {
        next_occurrence(s, p, i + 1)
    }
}

/// A found position lies at or after the start and holds `p`.
pub proof fn lemma_next_occurrence_bounds(s: Seq<char>, p: Seq<char>, i: int)
    ensures
        next_occurrence(s, p, i) >= 0 ==> i <= next_occurrence(s, p, i) && occurs_at(
            s,
            p,
            next_occurrence(s, p, i),
        ),
    decreases s.len() + 1 - i,
{
    if 0 <= i <= s.len() && !occurs_at(s, p, i) {
        lemma_next_occurrence_bounds(s, p, i + 1);
    }
}

pub proof fn lemma_next_occurrence_found(s: Seq<char>, p: Seq<char>, from: int, i: int)
    requires
        0 <= from <= i,
        occurs_at(s, p, i),
        forall|j: int| from <= j < i ==> !occurs_at(s, p, j),
    ensures
        next_occurrence(s, p, from) == i,
    decreases i - from,
{
    if from < i {
        lemma_next_occurrence_found(s, p, from + 1, i);
    }
}

pub proof fn lemma_next_occurrence_none(s: Seq<char>, p: Seq<char>, from: int)
    requires
        0 <= from,
        forall|j: int| from <= j ==> !occurs_at(s, p, j),
    ensures
        next_occurrence(s, p, from) == -1,
    decreases s.len() + 1 - from,
{
    if from <= s.len() {
        lemma_next_occurrence_none(s, p, from + 1);
    }
}

/// The first position at or after `from` where `p` occurs in `s`.
pub fn next_occurrence_exec(s: &Vec<char>, p: &[char], from: usize) -> (r: Option<usize>)
    ensures
        match r {
            Some(i) => i == next_occurrence(s@, p@, from as int),
            None => next_occurrence(s@, p@, from as int) == -1,
        },
{
    let r = find_from(s, p, from);
    proof {
        match r {
            Some(i) => lemma_next_occurrence_found(s@, p@, from as int, i as int),
            None => lemma_next_occurrence_none(s@, p@, from as int),
        }
    }
    r
}

/// Whether `p` occurs in `s`.
pub fn contains_chars(s: &Vec<char>, p: &[char]) -> (b: bool)
    ensures
        b == contains_seq(s@, p@),
{
    match find_from(s, p, 0) {
        Some(i) => true,
        None => {
            assert forall|j: int| !occurs_at(s@, p@, j) by {
                if j >= 0 {
                }
            }
            false
        },
    }
}

/// Equality of two vectors of characters.
pub fn chars_eq(a: &Vec<char>, b: &Vec<char>) -> (r: bool)
    ensures
        r == (a@ == b@),
{
    if a.len() != b.len() {
        return false;
    }
    let mut i: usize = 0;
    while i < a.len()
        invariant
            a@.len() == b@.len(),
            i <= a@.len(),
            forall|k: int| 0 <= k < i ==> a@[k] == b@[k],
        decreases a.len() - i,
    {
        if a[i] != b[i] {
            return false;
        }
        i = i + 1;
    }
    assert(a@ =~= b@);
    true
}

/// Equality of two texts.
pub fn str_eq(a: &str, b: &str) -> (r: bool)
    ensures
        r == (a@ == b@),
{
    let ca = chars_of(a);
    let cb = chars_of(b);
    chars_eq(&ca, &cb)
}

/// Number of bytes in the UTF-8 encoding of `c`.
pub open spec fn utf8_width(c: char) -> nat {
    let u = c as u32;
    if u < 0x80 {
        1
    } else if u < 0x800 {
        2
    } else if u < 0x10000 {
        3
    } else {
        4
    }
}

/// Number of bytes in the UTF-8 encoding of `s` (`str::len`).
pub open spec fn utf8_len(s: Seq<char>) -> nat
    decreases s.len(),
{
    if s.len() == 0 {
        0
    } else {
        utf8_len(s.drop_last()) + utf8_width(s.last())
    }
}

/// Exec `utf8_width`.
pub fn char_utf8_width(c: char) -> (w: usize)
    ensures
        w == utf8_width(c),
{
    let u = c as u32;
    if u < 0x80 {
        1
    } else if u < 0x800 {
        2
    } else if u < 0x10000 {
        3
    } else {
        4
    }
}

/// The UTF-8 byte length of `s`, if it fits in `usize`.
pub fn utf8_len_of(s: &Vec<char>) -> (r: Option<usize>)
    ensures
        match r {
            Some(n) => n == utf8_len(s@),
            None => utf8_len(s@) > usize::MAX,
        },
{
    let mut n: usize = 0;
    let mut i: usize = 0;
    while i < s.len()
        invariant
            i <= s@.len(),
            n == utf8_len(s@.take(i as int)),
        decreases s.len() - i,
    {
        assert(s@.take(i + 1).drop_last() == s@.take(i as int));
        let w = char_utf8_width(s[i]);
        if n > usize::MAX - w {
            proof {
                lemma_utf8_len_prefix(s@, i + 1);
            }
            return None;
        }
        n = n + w;
        i = i + 1;
    }
    assert(s@.take(s@.len() as int) == s@);
    Some(n)
}

/// The UTF-8 length of a prefix is at most that of the whole.
pub proof fn lemma_utf8_len_prefix(s: Seq<char>, k: int)
    requires
        0 <= k <= s.len(),
    ensures
        utf8_len(s.take(k)) <= utf8_len(s),
    decreases s.len() - k,
{
    if k < s.len() {
        lemma_utf8_len_prefix(s, k + 1);
        assert(s.take(k + 1).drop_last() == s.take(k));
        assert(utf8_len(s.take(k + 1)) == utf8_len(s.take(k)) + utf8_width(s.take(k + 1).last()));
    } else {
        assert(s.take(k) == s);
    }
}

/// The UTF-8 length of a concatenation is the sum of the lengths.
pub proof fn lemma_utf8_len_concat(a: Seq<char>, b: Seq<char>)
    ensures
        utf8_len(a + b) == utf8_len(a) + utf8_len(b),
    decreases b.len(),
{
    if b.len() > 0 {
        lemma_utf8_len_concat(a, b.drop_last());
        assert((a + b).drop_last() == a + b.drop_last());
    } else {
        assert(a + b == a);
    }
}

/// A text takes at least one byte per character.
pub proof fn lemma_utf8_len_ge_len(s: Seq<char>)
    ensures
        utf8_len(s) >= s.len(),
    decreases s.len(),
{
    if s.len() > 0 {
        lemma_utf8_len_ge_len(s.drop_last());
    }
}

} // verus!
