//! Text helpers for reporting transcript syncs: short session prefixes and
//! one-line previews.
use vstd::prelude::*;

use crate::compose::join_with;
use crate::text::{chars_of, slice_chars, split_ws, string_from_chars, utf8_len, utf8_width, char_vecs_view};
use vstd::string::StringExecFns;
use vstd::string::StrSliceExecFns;

verus! {

/// `s` cut to at most `n` bytes of UTF-8 without splitting a character: the
/// longest prefix that fits.
pub open spec fn is_safe_prefix(s: Seq<char>, n: int, r: Seq<char>) -> bool {
    &&& r.len() <= s.len()
    &&& r == s.take(r.len() as int)
    &&& utf8_len(r) <= n
    &&& (r.len() < s.len() ==> utf8_len(s.take(r.len() + 1int)) > n)
}

/// The longest prefix of `s` of at most `n` bytes that ends on a character
/// boundary.
pub fn safe_prefix(s: &str, n: usize) -> (r: &str)
    ensures
        is_safe_prefix(s@, n as int, r@),
{
    let cs = chars_of(s);
    let mut k: usize = 0;
    let mut bytes: usize = 0;
    assert(cs@.take(0) =~= Seq::<char>::empty());
    while k < cs.len()
        invariant
            cs@ == s@,
            k <= cs@.len(),
            bytes == utf8_len(cs@.take(k as int)),
            bytes <= n,
        ensures
            k <= cs@.len(),
            bytes == utf8_len(cs@.take(k as int)),
            bytes <= n,
            k < cs@.len() ==> utf8_len(cs@.take(k + 1)) > n,
        decreases cs.len() - k,
    {
        assert(cs@.take(k + 1).drop_last() =~= cs@.take(k as int));
        let w = crate::text::char_utf8_width(cs[k]);
        if w > n - bytes {
            break;
        }
        bytes = bytes + w;
        k = k + 1;
    }
    s.substring_char(0, k)
}

/// Whitespace runs of `t` collapsed to single spaces, ends trimmed.
pub open spec fn collapsed(t: Seq<char>) -> Seq<char> {
    join_with(split_ws(t), " "@)
}

/// A one-line preview of `t`: its collapsed text, or when that is longer
/// than `max_len` characters, its first `max_len - 3` characters (none
/// when `max_len < 3`) followed by `...`.
pub open spec fn truncated(t: Seq<char>, max_len: int) -> Seq<char> {
    let c = collapsed(t);
    if c.len() <= max_len {
        c
    } else {
        c.take(if max_len >= 3 { max_len - 3 } else { 0 }) + "..."@
    }
}

/// A one-line preview of `text` of at most about `max_len` characters.
pub fn truncate_text(text: &str, max_len: usize) -> (r: String)
    ensures
        r@ == truncated(text@, max_len as int),
{
    let cs = chars_of(text);
    let fields = crate::text::split_whitespace_chars(&cs);
    let mut words: Vec<String> = Vec::new();
    let mut i: usize = 0;
    while i < fields.len()
        invariant
            i <= fields@.len(),
            crate::text::strings_view(words@) == char_vecs_view(fields@).take(i as int),
        decreases fields.len() - i,
    {
        let w = string_from_chars(fields[i].as_slice());
        let ghost before = crate::text::strings_view(words@);
        words.push(w);
        assert(crate::text::strings_view(words@) =~= before.push(fields@[i as int]@));
        assert(char_vecs_view(fields@).take(i + 1) =~= char_vecs_view(fields@).take(i as int).push(
            fields@[i as int]@,
        ));
        i = i + 1;
    }
    assert(char_vecs_view(fields@).take(fields@.len() as int) =~= char_vecs_view(fields@));
    let c = crate::compose::join_strings(&words, " ");
    let count = c.as_str().unicode_len();
    if count <= max_len {
        c
    } else {
        let keep = if max_len >= 3 {
            max_len - 3
        } else {
            0
        };
        let mut r = c.as_str().substring_char(0, keep).to_owned();
        r.append("...");
        r
    }
}

} // verus!
