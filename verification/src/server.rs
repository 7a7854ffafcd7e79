//! Rules of the memory tool server that do not depend on the store: input
//! limits, error texts, the conversation buffer's combined text, dedup keys
//! and the system's summary counts.
use std::hash::{Hash, Hasher};
use vstd::prelude::*;

use crate::compose::join_with;
use crate::json::Json;
use crate::jsonrpc::{has_member, member_count, member_value};
use crate::system::DAESystem;
use crate::time::decimal;
use vstd::string::StringExecFns;

verus! {

/// How many buffered exchanges make a conversation episode.
pub const BUFFER_THRESHOLD: usize = 3;

/// How long an exchange's dedup key is remembered, in seconds.
pub const DEDUP_WINDOW_SECS: u64 = 60;

/// Maximum input size for text-accepting tools, in bytes (1 MB).
pub const MAX_TOOL_INPUT_BYTES: usize = 1048576;

/// The message for a field over the limit: `<field> exceeds 1048576 byte limit`.
pub open spec fn too_large_message(field: Seq<char>) -> Seq<char> {
    field + " exceeds "@ + decimal(MAX_TOOL_INPUT_BYTES as nat) + " byte limit"@
}

/// The decimal digits of `v` as a string.
fn decimal_string(v: u64) -> (r: String)
    ensures
        r@ == decimal(v as nat),
{
    let digits = crate::time::decimal_chars(v);
    crate::text::string_from_chars(digits.as_slice())
}

/// Rejects input over `MAX_TOOL_INPUT_BYTES` bytes, naming the field.
pub fn check_input_size(value: &str, field: &str) -> (r: Result<(), String>)
    ensures
        r.is_ok() <==> value.len() <= MAX_TOOL_INPUT_BYTES,
        match r {
            Ok(_) => true,
            Err(e) => e@ == too_large_message(field@),
        },
{
    if value.len() > MAX_TOOL_INPUT_BYTES {
        let mut e = field.to_owned();
        e.append(" exceeds ");
        let d = decimal_string(MAX_TOOL_INPUT_BYTES as u64);
        e.append(d.as_str());
        e.append(" byte limit");
        Err(e)
    } else {
        Ok(())
    }
}

/// The message for a user and an assistant turn over the limit together:
/// `combined input exceeds 1048576 byte limit`.
pub open spec fn combined_too_large_message() -> Seq<char> {
    "combined input exceeds "@ + decimal(MAX_TOOL_INPUT_BYTES as nat) + " byte limit"@
}

/// Rejects an exchange whose two turns together exceed
/// `MAX_TOOL_INPUT_BYTES` bytes.
pub fn check_exchange_size(user: &str, assistant: &str) -> (r: Result<(), String>)
    ensures
        r.is_ok() <==> user.len() + assistant.len() <= MAX_TOOL_INPUT_BYTES,
        match r {
            Ok(_) => true,
            Err(e) => e@ == combined_too_large_message(),
        },
{
    if user.len() > MAX_TOOL_INPUT_BYTES || assistant.len() > MAX_TOOL_INPUT_BYTES - user.len() {
        let mut e = "combined input exceeds ".to_owned();
        let d = decimal_string(MAX_TOOL_INPUT_BYTES as u64);
        e.append(d.as_str());
        e.append(" byte limit");
        Err(e)
    } else {
        Ok(())
    }
}

/// Total bytes of the texts.
pub open spec fn total_bytes(texts: Seq<&str>) -> int
    decreases texts.len(),
{
    if texts.len() == 0 {
        0
    } else {
        total_bytes(texts.drop_last()) + texts.last().len()
    }
}

/// The message for a batch over the limit:
/// `aggregate query text (<total> bytes) exceeds 1048576 byte limit`.
pub open spec fn batch_too_large_message(total: nat) -> Seq<char> {
    "aggregate query text ("@ + decimal(total) + " bytes) exceeds "@ + decimal(MAX_TOOL_INPUT_BYTES as nat)
        + " byte limit"@
}

/// Totals of prefixes never exceed the whole.
proof fn lemma_total_bytes_prefix(texts: Seq<&str>, k: int)
    requires
        0 <= k <= texts.len(),
    ensures
        0 <= total_bytes(texts.take(k)) <= total_bytes(texts),
    decreases texts.len() - k,
{
    if k < texts.len() {
        lemma_total_bytes_prefix(texts, k + 1);
        assert(texts.take(k + 1).drop_last() =~= texts.take(k));
    } else {
        assert(texts.take(k) =~= texts);
    }
    lemma_total_bytes_nonneg(texts.take(k));
}

proof fn lemma_total_bytes_nonneg(texts: Seq<&str>)
    ensures
        total_bytes(texts) >= 0,
    decreases texts.len(),
{
    if texts.len() > 0 {
        lemma_total_bytes_nonneg(texts.drop_last());
    }
}

/// Rejects a batch of queries whose texts together exceed
/// `MAX_TOOL_INPUT_BYTES` bytes, giving the total.
pub fn check_batch_size(queries: &Vec<&str>) -> (r: Result<(), String>)
    requires
        total_bytes(queries@) <= usize::MAX,
    ensures
        r.is_ok() <==> total_bytes(queries@) <= MAX_TOOL_INPUT_BYTES,
        match r {
            Ok(_) => true,
            Err(e) => e@ == batch_too_large_message(total_bytes(queries@) as nat),
        },
{
    let mut total: usize = 0;
    let mut i: usize = 0;
    assert(queries@.take(0) =~= Seq::<&str>::empty());
    while i < queries.len()
        invariant
            i <= queries@.len(),
            total == total_bytes(queries@.take(i as int)),
            total_bytes(queries@) <= usize::MAX,
        decreases queries.len() - i,
    {
        assert(queries@.take(i + 1).drop_last() =~= queries@.take(i as int));
        proof {
            lemma_total_bytes_prefix(queries@, i + 1);
        }
        total = total + queries[i].len();
        i = i + 1;
    }
    assert(queries@.take(queries@.len() as int) =~= queries@);
    if total > MAX_TOOL_INPUT_BYTES {
        let mut e = "aggregate query text (".to_owned();
        let d = decimal_string(total as u64);
        e.append(d.as_str());
        e.append(" bytes) exceeds ");
        let m = decimal_string(MAX_TOOL_INPUT_BYTES as u64);
        e.append(m.as_str());
        e.append(" byte limit");
        Err(e)
    } else {
        Ok(())
    }
}

/// A store error as a tool error: `[store] <error>`.
pub fn store_err_to_string(e: &str) -> (r: String)
    ensures
        r@ == "[store] "@ + e@,
{
    let mut r = "[store] ".to_owned();
    r.append(e);
    r
}

/// An exchange as one text: the user turn, a newline, the assistant turn.
pub open spec fn exchange_text(x: (Seq<char>, Seq<char>)) -> Seq<char> {
    x.0 + "\n"@ + x.1
}

/// (user, assistant) of each buffered exchange.
pub open spec fn exchanges_views(v: Seq<(String, String)>) -> Seq<(Seq<char>, Seq<char>)> {
    v.map_values(|x: (String, String)| (x.0@, x.1@))
}

/// The text of the buffered exchanges, one after another with blank lines
/// between them.
pub open spec fn buffer_text(xs: Seq<(Seq<char>, Seq<char>)>) -> Seq<char> {
    join_with(xs.map_values(|x: (Seq<char>, Seq<char>)| exchange_text(x)), "\n\n"@)
}

/// The combined text of drained buffer exchanges, ingested as one
/// conversation episode.
pub fn combine_exchanges(exchanges: &Vec<(String, String)>) -> (r: String)
    ensures
        r@ == buffer_text(exchanges_views(exchanges@)),
{
    let ghost xs = exchanges_views(exchanges@);
    let ghost texts = xs.map_values(|x: (Seq<char>, Seq<char>)| exchange_text(x));
    let mut parts: Vec<String> = Vec::new();
    let mut i: usize = 0;
    while i < exchanges.len()
        invariant
            i <= exchanges@.len(),
            xs == exchanges_views(exchanges@),
            texts == xs.map_values(|x: (Seq<char>, Seq<char>)| exchange_text(x)),
            crate::text::strings_view(parts@) == texts.take(i as int),
        decreases exchanges.len() - i,
    {
        let mut t = exchanges[i].0.clone();
        t.append("\n");
        t.append(exchanges[i].1.as_str());
        assert(t@ == texts[i as int]);
        let ghost before = crate::text::strings_view(parts@);
        parts.push(t);
        assert(crate::text::strings_view(parts@) =~= before.push(texts[i as int]));
        assert(texts.take(i + 1) =~= texts.take(i as int).push(texts[i as int]));
        i = i + 1;
    }
    assert(texts.take(texts.len() as int) =~= texts);
    crate::compose::join_strings(&parts, "\n\n")
}

/// The state of an FxHash computation.
#[verifier::external_type_specification]
#[verifier::external_body]
pub struct ExFxHasher(rustc_hash::FxHasher);

/// `FxHasher::default`: a hasher in its initial state.
#[verifier::external_body]
fn fx_hasher() -> rustc_hash::FxHasher {
    rustc_hash::FxHasher::default()
}

/// `<str as Hash>::hash`: feeds a text into the hasher.
#[verifier::external_body]
fn hash_text(h: &mut rustc_hash::FxHasher, s: &str) {
    s.hash(h)
}

/// `<[u8] as Hash>::hash`: feeds a byte slice into the hasher.
#[verifier::external_body]
fn hash_byte_slice(h: &mut rustc_hash::FxHasher, b: &[u8]) {
    b.hash(h)
}

/// `Hasher::finish`: the hash of what was fed in. Its value depends on the
/// machine's pointer width, so nothing is claimed of it.
#[verifier::external_body]
fn hash_finish(h: &rustc_hash::FxHasher) -> u64 {
    h.finish()
}

/// The dedup key of an exchange: the FxHash of the user turn, a newline and
/// the assistant turn.
pub fn content_hash(user: &str, assistant: &str) -> u64 {
    let mut h = fx_hasher();
    hash_text(&mut h, user);
    let newline: Vec<u8> = vec![10u8];
    hash_byte_slice(&mut h, newline.as_slice());
    hash_text(&mut h, assistant);
    hash_finish(&h)
}

/// `v` is the JSON number `x`, written in decimal.
pub open spec fn is_number_of(v: Json, x: int) -> bool {
    v matches Json::Number(s) && x >= 0 && s@ == decimal(x as nat)
}

/// A number as a JSON value.
fn json_number(v: usize) -> (j: Json)
    ensures
        is_number_of(j, v as int),
{
    Json::Number(decimal_string(v as u64))
}

/// The system's summary: `{"n": .., "episodes": .., "conscious": ..}` with
/// the number of occurrences, of episodes, and of conscious neighborhoods.
pub fn stats_json(system: &DAESystem) -> (j: Json)
    requires
        system@.count() <= usize::MAX,
    ensures
        member_count(j) == 3,
        has_member(j, 0, "n"@) && is_number_of(member_value(j, 0), system@.count()),
        has_member(j, 1, "episodes"@) && is_number_of(member_value(j, 1), system@.episodes.len() as int),
        has_member(j, 2, "conscious"@) && is_number_of(
            member_value(j, 2),
            system@.conscious.neighborhoods.len() as int,
        ),
{
    let n = system.n();
    let episodes = system.episodes.len();
    let conscious = system.conscious_episode.neighborhoods.len();
    let mut members: Vec<(String, Json)> = Vec::new();
    members.push(("n".to_owned(), json_number(n)));
    members.push(("episodes".to_owned(), json_number(episodes)));
    members.push(("conscious".to_owned(), json_number(conscious)));
    Json::object(members)
}

} // verus!
