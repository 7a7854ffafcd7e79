//! HTTP server rules that do not touch the network: which CORS origins are
//! local, and where a tool result keeps its payload.
use vstd::prelude::*;

use crate::json::{json_get, json_str, Json};

verus! {

/// `http://localhost`, as bytes.
pub open spec fn localhost_prefix() -> Seq<u8> {
    seq![104u8, 116u8, 116u8, 112u8, 58u8, 47u8, 47u8, 108u8, 111u8, 99u8, 97u8, 108u8, 104u8, 111u8, 115u8, 116u8]
}

/// `http://127.0.0.1`, as bytes.
pub open spec fn loopback_prefix() -> Seq<u8> {
    seq![104u8, 116u8, 116u8, 112u8, 58u8, 47u8, 47u8, 49u8, 50u8, 55u8, 46u8, 48u8, 46u8, 48u8, 46u8, 49u8]
}

/// Whether `b` is an ASCII digit (`0`..=`9`).
pub open spec fn is_digit(b: u8) -> bool {
    48u8 <= b <= 57u8
}

/// `origin` is `prefix`, alone or followed by `:` and a non-empty run of
/// ASCII digits (a port).
pub open spec fn origin_matches(origin: Seq<u8>, prefix: Seq<u8>) -> bool {
    &&& prefix.len() <= origin.len()
    &&& origin.take(prefix.len() as int) == prefix
    &&& {
        let rest = origin.skip(prefix.len() as int);
        rest.len() == 0 || (rest[0] == 58u8 && rest.len() > 1 && forall|i: int|
            1 <= i < rest.len() ==> is_digit(#[trigger] rest[i]))
    }
}

/// An origin is local when it is `http://localhost` or `http://127.0.0.1`,
/// with an optional numeric port.
pub open spec fn local_origin(origin: Seq<u8>) -> bool {
    origin_matches(origin, localhost_prefix()) || origin_matches(origin, loopback_prefix())
}

fn origin_matches_exec(origin: &[u8], prefix: &[u8]) -> (b: bool)
    ensures
        b == origin_matches(origin@, prefix@),
{
    let n = prefix.len();
    if n > origin.len() {
        return false;
    }
    let mut i: usize = 0;
    while i < n
        invariant
            n == prefix@.len(),
            n <= origin@.len(),
            i <= n,
            forall|j: int| 0 <= j < i ==> origin@[j] == prefix@[j],
        decreases n - i,
    {
        if origin[i] != prefix[i] {
            assert(origin@.take(n as int)[i as int] != prefix@[i as int]);
            return false;
        }
        i = i + 1;
    }
    assert(origin@.take(n as int) =~= prefix@);
    let ghost rest = origin@.skip(n as int);
    if n == origin.len() {
        assert(rest.len() == 0);
        return true;
    }
    if origin[n] != 58u8 || origin.len() - n <= 1 {
        assert(rest[0] == origin@[n as int]);
        return false;
    }
    let mut k: usize = n + 1;
    while k < origin.len()
        invariant
            n + 1 <= k <= origin@.len(),
            n == prefix@.len(),
            rest == origin@.skip(n as int),
            forall|j: int| 1 <= j < k - n ==> is_digit(#[trigger] rest[j]),
        decreases origin.len() - k,
    {
        if !(48u8 <= origin[k] && origin[k] <= 57u8) {
            assert(rest[k - n] == origin@[k as int]);
            assert(!is_digit(rest[k - n]));
            return false;
        }
        assert(rest[k - n] == origin@[k as int]);
        k = k + 1;
    }
    assert(rest[0] == origin@[n as int]);
    true
}

/// Whether a CORS origin is local: `http://localhost` or `http://127.0.0.1`,
/// with an optional numeric port and nothing else.
pub fn is_local_origin(origin: &[u8]) -> (b: bool)
    ensures
        b == local_origin(origin@),
{
    let localhost: [u8; 16] = [
        104u8, 116u8, 116u8, 112u8, 58u8, 47u8, 47u8, 108u8, 111u8, 99u8, 97u8, 108u8, 104u8, 111u8, 115u8, 116u8,
    ];
    let loopback: [u8; 16] = [
        104u8, 116u8, 116u8, 112u8, 58u8, 47u8, 47u8, 49u8, 50u8, 55u8, 46u8, 48u8, 46u8, 48u8, 46u8, 49u8,
    ];
    assert(localhost@ =~= localhost_prefix());
    assert(loopback@ =~= loopback_prefix());
    origin_matches_exec(origin, localhost.as_slice()) || origin_matches_exec(origin, loopback.as_slice())
}

/// The text of the first content item of a tool result
/// (`{"content": [{"type": "text", "text": ..}]}`), if it has one.
pub open spec fn tool_result_payload_of(result: Json) -> Option<Seq<char>> {
    match json_get(result, "content"@) {
        Some(Json::Array(items)) => if items@.len() > 0 {
            match json_get(items@[0], "text"@) {
                Some(t) => json_str(t),
                None => None,
            }
        } else {
            None
        },
        _ => None,
    }
}

/// The payload text a tool result carries, which HTTP handlers answer with
/// once parsed; `None` when the value is not a tool result.
pub fn tool_result_payload(result: &Json) -> (r: Option<String>)
    ensures
        match r {
            Some(t) => tool_result_payload_of(*result) == Some(t@),
            None => tool_result_payload_of(*result).is_none(),
        },
{
    let content = match result.get("content") {
        Some(c) => c,
        None => return None,
    };
    let items = match content.as_array() {
        Some(a) => a,
        None => return None,
    };
    if items.len() == 0 {
        return None;
    }
    match items[0].get("text") {
        Some(t) => match t.as_str() {
            Some(s) => Some(s.to_owned()),
            None => None,
        },
        None => None,
    }
}

} // verus!
