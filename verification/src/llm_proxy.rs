//! The chat proxy's decisions: which memory context to inject, how the
//! messages sent to the model are assembled, how the streamed completion is
//! relayed as server-sent events, and what is stored once it ends.
//! The HTTP exchanges themselves are the caller's.
use vstd::prelude::*;

use crate::json::{get_opt, json_get, json_str, str_opt, Json};
use crate::salient::{salient_span_chars, salient_spans};
use crate::text::{chars_of, str_eq, string_from_chars, trim_chars, trim_ws, TrimClass};
use vstd::string::StringExecFns;

verus! {

/// Completion token limit used when the request gives none.
pub const DEFAULT_MAX_TOKENS: u32 = 4096;

/// Seconds between keepalive comments while no chunk has arrived.
pub const KEEPALIVE_INTERVAL_SECS: u64 = 15;

/// System prompt of the explorer mode.
pub const EXPLORER_SYSTEM_PROMPT: &'static str = "You are a window into a geometric memory system built on the 3-sphere manifold.\nYour job is to answer the user's question in clean markdown using the supplied\nAM memory context. Surface connections between memories, trace how they relate,\nand help the user understand their memory landscape.\nDo not fabricate memories. If the recall is sparse, noisy, or fragmentary, say\nthat the memory is partial and summarize only the stable, high-confidence points.\nNever output raw note fragments, dangling clauses, or stitched-together snippets\nas if they were polished facts. Prefer a coherent synopsis over exhaustive recall dumps.";

/// System prompt of the assistant mode.
pub const ASSISTANT_SYSTEM_PROMPT: &'static str = "You are a helpful assistant with access to a geometric memory system.\nYour job is to answer the user's question in clean markdown using the supplied\nAM memory context. When you identify an important insight, decision, or preference,\nwrap it in <salient> tags to store it as conscious memory.\nIf recalled context is fragmentary or low-confidence, acknowledge the uncertainty\nbriefly and do not present incomplete snippets as settled fact.\nLead with the clearest answer first, then organize supporting detail under\nuseful markdown headings when the question calls for depth.";

/// The non-empty trimmed contents of the tagged spans of `text`.
pub open spec fn salient_tags(text: Seq<char>) -> Seq<Seq<char>> {
    nonempty_trimmed(salient_spans(text, 0))
}

/// `spans` trimmed, the empty ones dropped.
pub open spec fn nonempty_trimmed(spans: Seq<Seq<char>>) -> Seq<Seq<char>>
    decreases spans.len(),
{
    if spans.len() == 0 {
        seq![]
    } else {
        let prev = nonempty_trimmed(spans.drop_last());
        let t = trim_ws(spans.last());
        if t.len() > 0 {
            prev.push(t)
        } else {
            prev
        }
    }
}

/// The contents of the `<salient>` spans of `text`, trimmed, empty ones
/// dropped.
pub fn extract_salient_tags(text: &str) -> (tags: Vec<String>)
    ensures
        crate::text::strings_view(tags@) == salient_tags(text@),
{
    let chars = chars_of(text);
    let spans = salient_span_chars(&chars);
    let ghost all = salient_spans(text@, 0);
    let mut tags: Vec<String> = Vec::new();
    let mut k: usize = 0;
    assert(all.take(0) =~= seq![]);
    while k < spans.len()
        invariant
            k <= spans@.len(),
            spans@.len() == all.len(),
            forall|j: int| 0 <= j < spans@.len() ==> (#[trigger] spans@[j])@ == all[j],
            crate::text::strings_view(tags@) == nonempty_trimmed(all.take(k as int)),
        decreases spans.len() - k,
    {
        let t = trim_chars(&spans[k], &TrimClass::Whitespace);
        assert(all.take(k + 1).drop_last() =~= all.take(k as int));
        assert(all.take(k + 1).last() == all[k as int]);
        if t.len() > 0 {
            let ghost before = crate::text::strings_view(tags@);
            tags.push(string_from_chars(t.as_slice()));
            assert(crate::text::strings_view(tags@) =~= before.push(t@));
        }
        k = k + 1;
    }
    assert(all.take(all.len() as int) =~= all);
    tags
}

/// `event: {event}\ndata: {data}\n\n`.
pub fn sse_event(event: &str, data: &str) -> (r: String)
    ensures
        r@ == "event: "@ + event@ + "\ndata: "@ + data@ + "\n\n"@,
{
    let mut r = "event: ".to_owned();
    r.append(event);
    r.append("\ndata: ");
    r.append(data);
    r.append("\n\n");
    r
}

/// The pieces of `s` between newlines (as `str::split('\n')` gives them).
pub open spec fn lines_of(s: Seq<char>) -> Seq<Seq<char>>
    decreases s.len(),
{
    if s.len() == 0 {
        seq![seq![]]
    } else {
        let prev = lines_of(s.drop_last());
        if s.last() == '\n' {
            prev.push(seq![])
        } else {
            prev.update(prev.len() - 1, prev.last().push(s.last()))
        }
    }
}

/// `data: {line}\n` for each line, then a blank line.
pub open spec fn data_lines(lines: Seq<Seq<char>>) -> Seq<char>
    decreases lines.len(),
{
    if lines.len() == 0 {
        seq![]
    } else {
        data_lines(lines.drop_last()) + "data: "@ + lines.last() + "\n"@
    }
}

/// An SSE data frame; multi-line data becomes one `data:` line per line.
pub fn sse_data(data: &str) -> (r: String)
    ensures
        r@ == data_lines(lines_of(data@)) + "\n"@,
{
    proof {
        reveal_strlit("\n");
    }
    let chars = chars_of(data);
    let mut r = String::new();
    let mut line: Vec<char> = Vec::new();
    let mut i: usize = 0;
    assert(chars@.take(0) =~= seq![]);
    while i < chars.len()
        invariant
            i <= chars@.len(),
            chars@ == data@,
            "\n"@ == seq!['\n'],
            lines_of(chars@.take(i as int)).len() >= 1,
            r@ == data_lines(lines_of(chars@.take(i as int)).drop_last()),
            line@ == lines_of(chars@.take(i as int)).last(),
        decreases chars.len() - i,
    {
        let ghost prev = lines_of(chars@.take(i as int));
        assert(chars@.take(i + 1).drop_last() =~= chars@.take(i as int));
        assert(chars@.take(i + 1).last() == chars@[i as int]);
        if chars[i] == '\n' {
            r.append("data: ");
            let l = string_from_chars(line.as_slice());
            r.append(l.as_str());
            r.append("\n");
            line = Vec::new();
            assert(lines_of(chars@.take(i + 1)) == prev.push(seq![]));
            assert(lines_of(chars@.take(i + 1)).drop_last() =~= prev);
            assert(prev =~= prev.drop_last().push(prev.last()));
        } else {
            line.push(chars[i]);
            assert(lines_of(chars@.take(i + 1)).drop_last() =~= prev.drop_last());
        }
        i = i + 1;
    }
    assert(chars@.take(chars@.len() as int) =~= chars@);
    let ghost all = lines_of(data@);
    r.append("data: ");
    let l = string_from_chars(line.as_slice());
    r.append(l.as_str());
    r.append("\n");
    r.append("\n");
    assert(all =~= all.drop_last().push(all.last()));
    r
}

/// The keepalive comment.
pub fn sse_keepalive() -> (r: String)
    ensures
        r@ == ": keepalive\n\n"@,
{
    ": keepalive\n\n".to_owned()
}

/// The lowercase hexadecimal digit of `v` (`0 <= v < 16`).
pub open spec fn hex_digit(v: int) -> char {
    if v < 10 {
        (('0' as int) + v) as char
    } else {
        (('a' as int) + v - 10) as char
    }
}

/// How a JSON string literal writes `c`: `\"`, `\\`, `\b`, `\f`, `\n`,
/// `\r` and `\t` for those characters, `\u00xx` (lowercase hex) for the
/// other control characters below U+0020, and the character itself
/// otherwise.
pub open spec fn json_escape_char(c: char) -> Seq<char> {
    let u = c as int;
    if c == '"' {
        seq!['\\', '"']
    } else if c == '\\' {
        seq!['\\', '\\']
    } else if u == 0x08 {
        seq!['\\', 'b']
    } else if u == 0x0c {
        seq!['\\', 'f']
    } else if u == 0x0a {
        seq!['\\', 'n']
    } else if u == 0x0d {
        seq!['\\', 'r']
    } else if u == 0x09 {
        seq!['\\', 't']
    } else if u < 0x20 {
        seq!['\\', 'u', '0', '0', hex_digit(u / 16), hex_digit(u % 16)]
    } else {
        seq![c]
    }
}

/// The characters of `s`, each escaped as a JSON string literal writes it.
pub open spec fn json_escaped(s: Seq<char>) -> Seq<char>
    decreases s.len(),
{
    if s.len() == 0 {
        seq![]
    } else {
        json_escaped(s.drop_last()) + json_escape_char(s.last())
    }
}

/// The JSON string literal of `s`, as `serde_json::to_string` writes it:
/// its escaped characters between double quotes.
pub open spec fn json_quoted(s: Seq<char>) -> Seq<char> {
    seq!['"'] + json_escaped(s) + seq!['"']
}

/// `serde_json::to_string` on a string: its JSON string literal, `"`,
/// the escaped characters, `"` (serde_json's `format_escaped_str` with its
/// `ESCAPE` table). Serialising a string into memory does not fail.
#[verifier::external_body]
fn json_quote(s: &str) -> (r: String)
    ensures
        r@ == json_quoted(s@),
{
    serde_json::to_string(s).unwrap_or_default()
}

/// An SSE `error` event carrying `{"code": code, "message": message}`.
pub fn sse_error(code: &str, message: &str) -> (r: String)
    ensures
        r@ == "event: "@ + "error"@ + "\ndata: "@ + ("{\"code\":"@ + json_quoted(code@)
            + ",\"message\":"@ + json_quoted(message@) + "}"@) + "\n\n"@,
{
    let mut data = "{\"code\":".to_owned();
    let qc = json_quote(code);
    data.append(qc.as_str());
    data.append(",\"message\":");
    let qm = json_quote(message);
    data.append(qm.as_str());
    data.append("}");
    sse_event("error", data.as_str())
}

/// The bearer token of an `Authorization` header value, when it has one.
pub open spec fn bearer_token_of(header: Seq<char>) -> Option<Seq<char>> {
    if crate::text::has_prefix(header, "Bearer "@) && header.len() > 7 {
        Some(header.skip(7))
    } else {
        None
    }
}

/// The API key carried by an `Authorization: Bearer <key>` header.
pub fn bearer_token(header: Option<&str>) -> (r: Option<String>)
    ensures
        match header {
            None => r.is_none(),
            Some(h) => match r {
                Some(k) => bearer_token_of(h@) == Some(k@),
                None => bearer_token_of(h@).is_none(),
            },
        },
{
    proof {
        reveal_strlit("Bearer ");
    }
    let h = match header {
        None => return None,
        Some(h) => h,
    };
    let chars = chars_of(h);
    let prefix = vec!['B', 'e', 'a', 'r', 'e', 'r', ' '];
    assert(prefix@ =~= "Bearer "@);
    if crate::text::occurs_at_exec(&chars, prefix.as_slice(), 0) && chars.len() > 7 {
        let rest = crate::text::slice_chars(&chars, 7, chars.len());
        assert(rest@ =~= h@.skip(7));
        Some(string_from_chars(rest.as_slice()))
    } else {
        None
    }
}

/// The system prompt of a chat mode: `assistant`, or the explorer's for any
/// other mode.
pub fn system_prompt_for(mode: &str) -> (r: &'static str)
    ensures
        r@ == if mode@ == "assistant"@ {
            ASSISTANT_SYSTEM_PROMPT@
        } else {
            EXPLORER_SYSTEM_PROMPT@
        },
{
    if str_eq(mode, "assistant") {
        ASSISTANT_SYSTEM_PROMPT
    } else {
        EXPLORER_SYSTEM_PROMPT
    }
}

/// A chat message.
pub struct ChatMessage {
    pub role: String,
    pub content: String,
}

/// (role, content) of each message.
pub open spec fn message_views(v: Seq<ChatMessage>) -> Seq<(Seq<char>, Seq<char>)> {
    v.map_values(|m: ChatMessage| (m.role@, m.content@))
}

/// The conversation with its first system message replaced by `system`.
pub open spec fn replace_first_system(
    conv: Seq<(Seq<char>, Seq<char>)>,
    system: Seq<char>,
) -> (Seq<(Seq<char>, Seq<char>)>, bool)
    decreases conv.len(),
{
    if conv.len() == 0 {
        (seq![], false)
    } else {
        let prev = replace_first_system(conv.drop_last(), system);
        if conv.last().0 == "system"@ && !prev.1 {
            (prev.0.push(("system"@, system)), true)
        } else {
            (prev.0.push(conv.last()), prev.1)
        }
    }
}

/// The messages sent to the model: the conversation with its first system
/// message replaced by the mode's system prompt (or that prompt put first
/// when there is none), then the memory context and the user's message.
pub open spec fn chat_messages(
    conv: Seq<(Seq<char>, Seq<char>)>,
    system: Seq<char>,
    memory: Seq<char>,
    user: Seq<char>,
) -> Seq<(Seq<char>, Seq<char>)> {
    let r = replace_first_system(conv, system);
    let base = if r.1 {
        r.0
    } else {
        seq![("system"@, system)] + r.0
    };
    base.push(("user"@, memory)).push(("user"@, user))
}

/// Assemble the messages sent to the model.
pub fn build_chat_messages(
    conversation: &Vec<ChatMessage>,
    system_prompt: &str,
    memory_context: &str,
    user_message: &str,
) -> (r: Vec<ChatMessage>)
    ensures
        message_views(r@) == chat_messages(
            message_views(conversation@),
            system_prompt@,
            memory_context@,
            user_message@,
        ),
{
    let ghost conv = message_views(conversation@);
    let mut out: Vec<ChatMessage> = Vec::new();
    let mut replaced = false;
    let mut i: usize = 0;
    assert(conv.take(0) =~= seq![]);
    while i < conversation.len()
        invariant
            i <= conversation@.len(),
            conv == message_views(conversation@),
            (message_views(out@), replaced) == replace_first_system(conv.take(i as int), system_prompt@),
        decreases conversation.len() - i,
    {
        let m = &conversation[i];
        assert(conv.take(i + 1).drop_last() =~= conv.take(i as int));
        assert(conv.take(i + 1).last() == (m.role@, m.content@));
        let ghost before = message_views(out@);
        if str_eq(m.role.as_str(), "system") && !replaced {
            out.push(ChatMessage { role: "system".to_owned(), content: system_prompt.to_owned() });
            replaced = true;
        } else {
            out.push(ChatMessage { role: m.role.clone(), content: m.content.clone() });
        }
        assert(message_views(out@) =~= replace_first_system(conv.take(i + 1), system_prompt@).0);
        i = i + 1;
    }
    assert(conv.take(conv.len() as int) =~= conv);
    if !replaced {
        let ghost before = message_views(out@);
        out.insert(0, ChatMessage { role: "system".to_owned(), content: system_prompt.to_owned() });
        assert(message_views(out@) =~= seq![("system"@, system_prompt@)] + before);
    }
    let ghost base = message_views(out@);
    out.push(ChatMessage { role: "user".to_owned(), content: memory_context.to_owned() });
    out.push(ChatMessage { role: "user".to_owned(), content: user_message.to_owned() });
    assert(message_views(out@) =~= base.push(("user"@, memory_context@)).push(("user"@, user_message@)));
    out
}

/// The text of `parsed["choices"][0]["delta"]["content"]`.
pub open spec fn delta_content_of(parsed: Json) -> Option<Seq<char>> {
    match json_get(parsed, "choices"@) {
        Some(Json::Array(items)) => if items@.len() > 0 {
            str_opt(get_opt(json_get(items@[0], "delta"@), "content"@))
        } else {
            None
        },
        _ => None,
    }
}

/// The content of a streamed completion chunk.
pub fn delta_content(parsed: &Json) -> (r: Option<String>)
    ensures
        match r {
            Some(c) => delta_content_of(*parsed) == Some(c@),
            None => delta_content_of(*parsed).is_none(),
        },
{
    let choices = match parsed.get("choices") {
        Some(c) => c,
        None => return None,
    };
    let items = match choices.as_array() {
        Some(a) => a,
        None => return None,
    };
    if items.len() == 0 {
        return None;
    }
    let delta = match items[0].get("delta") {
        Some(d) => d,
        None => return None,
    };
    let content = match delta.get("content") {
        Some(c) => c,
        None => return None,
    };
    match content.as_str() {
        Some(s) => Some(s.to_owned()),
        None => None,
    }
}

/// What happened on the upstream completion stream.
pub enum StreamEvent {
    /// The client went away.
    Cancelled,
    /// An event arrived: its raw data, and the data parsed as JSON when it
    /// is JSON.
    Event { data: String, parsed: Option<Json> },
    /// The stream failed.
    Failed { message: String },
    /// The stream ended.
    Ended,
    /// The keepalive interval elapsed.
    KeepaliveTick,
}

/// What to do after a stream event.
pub struct StreamAction {
    /// Frame to send to the client.
    pub send: Option<String>,
    /// The relay is over.
    pub finished: bool,
    /// Run the post-response operations on the full response.
    pub post_response: bool,
}

/// State of the relay of one streamed completion.
pub struct ChatStream {
    pub full_response: String,
    pub chunk_count: usize,
    pub first_chunk_received: bool,
}

impl ChatStream {
    /// A relay that has received nothing.
    pub fn new() -> (s: Self)
        ensures
            s.full_response@.len() == 0,
            s.chunk_count == 0,
            !s.first_chunk_received,
    {
        ChatStream { full_response: String::new(), chunk_count: 0, first_chunk_received: false }
    }

    /// Handle one stream event: relay content chunks as SSE data frames and
    /// collect them, end on `[DONE]` or at the end of the stream, report
    /// failures, and send keepalives until the first chunk arrives.
    pub fn step(&mut self, event: StreamEvent) -> (a: StreamAction)
        requires
            old(self).chunk_count < usize::MAX,
        ensures
            match event {
                StreamEvent::Cancelled => a.send.is_none() && a.finished && !a.post_response
                    && *final(self) == *old(self),
                StreamEvent::Event { data, parsed } => {
                    &&& final(self).first_chunk_received
                    &&& if data@ == "[DONE]"@ {
                        &&& a.send matches Some(f) && f@ == data_lines(lines_of("[DONE]"@)) + "\n"@
                        &&& a.finished && a.post_response
                        &&& final(self).full_response@ == old(self).full_response@
                        &&& final(self).chunk_count == old(self).chunk_count
                    } else {
                        let content = match parsed {
                            Some(p) => delta_content_of(p),
                            None => None,
                        };
                        &&& !a.finished && !a.post_response
                        &&& if content.is_some() && content.unwrap().len() > 0 {
                            &&& a.send matches Some(f) && f@ == data_lines(lines_of(content.unwrap()))
                                + "\n"@
                            &&& final(self).full_response@ == old(self).full_response@
                                + content.unwrap()
                            &&& final(self).chunk_count == old(self).chunk_count + 1
                        } else {
                            &&& a.send.is_none()
                            &&& final(self).full_response@ == old(self).full_response@
                            &&& final(self).chunk_count == old(self).chunk_count
                        }
                    }
                },
                StreamEvent::Failed { message } => {
                    &&& a.send matches Some(f) && f@ == "event: "@ + "error"@ + "\ndata: "@ + (
                    "{\"code\":"@ + json_quoted("LLM_STREAM_ERROR"@) + ",\"message\":"@
                        + json_quoted("Stream error: "@ + message@) + "}"@) + "\n\n"@
                    &&& a.finished && !a.post_response
                    &&& *final(self) == *old(self)
                },
                StreamEvent::Ended => {
                    &&& a.send matches Some(f) && f@ == data_lines(lines_of("[DONE]"@)) + "\n"@
                    &&& a.finished && a.post_response
                    &&& *final(self) == *old(self)
                },
                StreamEvent::KeepaliveTick => {
                    &&& !a.finished && !a.post_response
                    &&& *final(self) == *old(self)
                    &&& if old(self).first_chunk_received {
                        a.send.is_none()
                    } else {
                        a.send matches Some(f) && f@ == ": keepalive\n\n"@
                    }
                },
            },
    {
        match event {
            StreamEvent::Cancelled => StreamAction { send: None, finished: true, post_response: false },
            StreamEvent::Event { data, parsed } => {
                self.first_chunk_received = true;
                if str_eq(data.as_str(), "[DONE]") {
                    return StreamAction {
                        send: Some(sse_data("[DONE]")),
                        finished: true,
                        post_response: true,
                    };
                }
                let content = match &parsed {
                    Some(p) => delta_content(p),
                    None => None,
                };
                match content {
                    Some(c) => {
                        if c.as_str().is_empty() {
                            StreamAction { send: None, finished: false, post_response: false }
                        } else {
                            self.chunk_count = self.chunk_count + 1;
                            self.full_response.append(c.as_str());
                            StreamAction {
                                send: Some(sse_data(c.as_str())),
                                finished: false,
                                post_response: false,
                            }
                        }
                    },
                    None => StreamAction { send: None, finished: false, post_response: false },
                }
            },
            StreamEvent::Failed { message } => {
                let mut m = "Stream error: ".to_owned();
                m.append(message.as_str());
                StreamAction {
                    send: Some(sse_error("LLM_STREAM_ERROR", m.as_str())),
                    finished: true,
                    post_response: false,
                }
            },
            StreamEvent::Ended => StreamAction {
                send: Some(sse_data("[DONE]")),
                finished: true,
                post_response: true,
            },
            StreamEvent::KeepaliveTick => {
                if self.first_chunk_received {
                    StreamAction { send: None, finished: false, post_response: false }
                } else {
                    StreamAction { send: Some(sse_keepalive()), finished: false, post_response: false }
                }
            },
        }
    }
}

/// One recalled item, as the memory context message lists it. The score is
/// given already formatted with two decimals.
pub struct RecallLine {
    pub id: String,
    pub seed: String,
    pub score: String,
    pub kind: String,
    pub epoch: u64,
    pub text: String,
}

/// The line of one recalled item.
pub open spec fn recall_item_line(item: RecallLine) -> Seq<char> {
    "- **"@ + item.seed@ + "**  \n  score: "@ + item.score@ + " | type: "@ + item.kind@ + " | epoch: "@
        + crate::time::decimal(item.epoch as nat) + " | id: "@ + item.id@ + "  \n  "@ + trim_ws(item.text@)
}

/// The lines of recalled items.
pub open spec fn recall_lines(items: Seq<RecallLine>) -> Seq<Seq<char>> {
    items.map_values(|i: RecallLine| recall_item_line(i))
}

/// A recall section: the items' lines joined by newlines and ended by one,
/// or a note that nothing was recalled.
pub open spec fn recall_section(items: Seq<RecallLine>) -> Seq<char> {
    if items.len() == 0 {
        "- None recalled.\n"@
    } else {
        crate::compose::join_with(recall_lines(items), "\n"@) + "\n"@
    }
}

/// Format one recall section of the memory context message.
pub fn format_recall_section(items: &Vec<RecallLine>) -> (r: String)
    ensures
        r@ == recall_section(items@),
{
    if items.len() == 0 {
        return "- None recalled.\n".to_owned();
    }
    let mut lines: Vec<String> = Vec::new();
    let mut i: usize = 0;
    while i < items.len()
        invariant
            i <= items@.len(),
            crate::text::strings_view(lines@) == recall_lines(items@.take(i as int)),
        decreases items.len() - i,
    {
        let item = &items[i];
        let mut l = "- **".to_owned();
        l.append(item.seed.as_str());
        l.append("**  \n  score: ");
        l.append(item.score.as_str());
        l.append(" | type: ");
        l.append(item.kind.as_str());
        l.append(" | epoch: ");
        let digits = crate::time::decimal_chars(item.epoch);
        let d = string_from_chars(digits.as_slice());
        l.append(d.as_str());
        l.append(" | id: ");
        l.append(item.id.as_str());
        l.append("  \n  ");
        let tchars = chars_of(item.text.as_str());
        let t = trim_chars(&tchars, &TrimClass::Whitespace);
        let ts = string_from_chars(t.as_slice());
        l.append(ts.as_str());
        assert(item == items@[i as int]);
        assert(l@ =~= recall_item_line(items@[i as int]));
        let ghost before = crate::text::strings_view(lines@);
        lines.push(l);
        assert(crate::text::strings_view(lines@) =~= before.push(l@));
        assert(recall_lines(items@.take(i + 1)) =~= recall_lines(items@.take(i as int)).push(
            recall_item_line(items@[i as int]),
        ));
        i = i + 1;
    }
    assert(items@.take(items@.len() as int) =~= items@);
    let mut r = crate::compose::join_lines(&lines);
    r.append("\n");
    r
}

/// The guidance line of a chat mode.
pub open spec fn mode_guidance(mode: Seq<char>) -> Seq<char> {
    if mode == "explorer"@ {
        "Focus on explaining what the memory system appears to know, where the memories came from, and how the pieces connect."@
    } else {
        "Use the recalled memory as evidence. Synthesize it into a coherent answer instead of echoing fragments verbatim."@
    }
}

/// The memory context message placed before the user's question.
pub open spec fn memory_context_message(
    mode: Seq<char>,
    dae_context: Seq<char>,
    conscious: Seq<RecallLine>,
    subconscious: Seq<RecallLine>,
    novel: Seq<RecallLine>,
) -> Seq<char> {
    "AM_MEMORY_CONTEXT\n\n"@ + "Use this as supporting evidence for the next user question.\n"@
        + mode_guidance(mode) + "\n\n"@ + "## Conscious\n"@ + recall_section(conscious)
        + "\n## Subconscious\n"@ + recall_section(subconscious) + "\n## Novel\n"@ + recall_section(
        novel,
    ) + "\n## Composed Recall\n"@ + (if trim_ws(dae_context).len() == 0 {
        "No composed recall available."@
    } else {
        trim_ws(dae_context)
    }) + "\n"@
}

/// Build the memory context message from the composed recall and the
/// recalled items by category.
pub fn build_memory_context_message(
    mode: &str,
    dae_context: &str,
    conscious: &Vec<RecallLine>,
    subconscious: &Vec<RecallLine>,
    novel: &Vec<RecallLine>,
) -> (r: String)
    ensures
        r@ == memory_context_message(mode@, dae_context@, conscious@, subconscious@, novel@),
{
    let mut r = "AM_MEMORY_CONTEXT\n\n".to_owned();
    r.append("Use this as supporting evidence for the next user question.\n");
    if str_eq(mode, "explorer") {
        r.append(
            "Focus on explaining what the memory system appears to know, where the memories came from, and how the pieces connect.",
        );
    } else {
        r.append(
            "Use the recalled memory as evidence. Synthesize it into a coherent answer instead of echoing fragments verbatim.",
        );
    }
    r.append("\n\n");
    r.append("## Conscious\n");
    let c = format_recall_section(conscious);
    r.append(c.as_str());
    r.append("\n## Subconscious\n");
    let sc = format_recall_section(subconscious);
    r.append(sc.as_str());
    r.append("\n## Novel\n");
    let n = format_recall_section(novel);
    r.append(n.as_str());
    r.append("\n## Composed Recall\n");
    let dchars = chars_of(dae_context);
    let t = trim_chars(&dchars, &TrimClass::Whitespace);
    if t.len() == 0 {
        r.append("No composed recall available.");
    } else {
        let ts = string_from_chars(t.as_slice());
        r.append(ts.as_str());
    }
    r.append("\n");
    r
}

/// The text of member `key` of `j`, if `j` is an object with such a string
/// member.
pub open spec fn json_str_at(j: Json, key: Seq<char>) -> Option<Seq<char>> {
    str_opt(json_get(j, key))
}

/// The value is an empty JSON array.
pub open spec fn is_empty_array(v: Option<Json>) -> bool {
    v matches Some(Json::Array(a)) && a@.len() == 0
}

/// The tool calls that store a finished exchange: buffer it, activate the
/// response's connections, and mark each salient tag of the response
/// (superseding nothing); nothing when the response is empty.
pub fn post_response_calls(user_message: &str, response: &str) -> (calls: Vec<(String, Json)>)
    ensures
        response@.len() == 0 ==> calls@.len() == 0,
        response@.len() > 0 ==> {
            &&& calls@.len() == 2 + salient_tags(response@).len()
            &&& calls@[0].0@ == "am_buffer"@
            &&& json_str_at(calls@[0].1, "user"@) == Some(user_message@)
            &&& json_str_at(calls@[0].1, "assistant"@) == Some(response@)
            &&& calls@[1].0@ == "am_activate_response"@
            &&& json_str_at(calls@[1].1, "text"@) == Some(response@)
            &&& forall|k: int| 2 <= k < calls@.len() ==> (#[trigger] calls@[k]).0@ == "am_salient"@
                && json_str_at(calls@[k].1, "text"@) == Some(salient_tags(response@)[k - 2])
                && is_empty_array(json_get(calls@[k].1, "supersedes"@))
        },
{
    proof {
        reveal_strlit("user");
        reveal_strlit("assistant");
        reveal_strlit("text");
    }
    let mut calls: Vec<(String, Json)> = Vec::new();
    if response.is_empty() {
        return calls;
    }
    let buffer_args: Vec<(String, Json)> = vec![
        ("user".to_owned(), Json::string(user_message)),
        ("assistant".to_owned(), Json::string(response)),
    ];
    proof {
        let m = buffer_args@;
        assert(m.len() == 2);
        assert(m[0].0@ == "user"@);
        assert(m[1].0@ == "assistant"@);
        assert("user"@ != "assistant"@) by {
            assert("user"@.len() != "assistant"@.len());
        }
        assert(m.drop_first()[0] == m[1]);
        assert(crate::json::member(m.drop_first(), "assistant"@) == Some(m[1].1));
        assert(crate::json::member(m, "assistant"@) == Some(m[1].1));
    }
    calls.push(("am_buffer".to_owned(), Json::Object(buffer_args)));
    let activate_args: Vec<(String, Json)> = vec![("text".to_owned(), Json::string(response))];
    calls.push(("am_activate_response".to_owned(), Json::Object(activate_args)));
    let tags = extract_salient_tags(response);
    let mut k: usize = 0;
    while k < tags.len()
        invariant
            k <= tags@.len(),
            tags@.len() == salient_tags(response@).len(),
            calls@.len() == 2 + k,
            calls@[0].0@ == "am_buffer"@,
            calls@[1].0@ == "am_activate_response"@,
            json_str_at(calls@[0].1, "user"@) == Some(user_message@),
            json_str_at(calls@[0].1, "assistant"@) == Some(response@),
            json_str_at(calls@[1].1, "text"@) == Some(response@),
            crate::text::strings_view(tags@) == salient_tags(response@),
            forall|j: int| 2 <= j < calls@.len() ==> (#[trigger] calls@[j]).0@ == "am_salient"@
                && json_str_at(calls@[j].1, "text"@) == Some(salient_tags(response@)[j - 2])
                && is_empty_array(json_get(calls@[j].1, "supersedes"@)),
        decreases tags.len() - k,
    {
        proof {
            reveal_strlit("text");
            reveal_strlit("supersedes");
        }
        let supersedes: Vec<Json> = Vec::new();
        let args: Vec<(String, Json)> = vec![
            ("text".to_owned(), Json::string(tags[k].as_str())),
            ("supersedes".to_owned(), Json::Array(supersedes)),
        ];
        proof {
            let m = args@;
            assert(m.len() == 2);
            assert(m[0].0@ == "text"@);
            assert(m[1].0@ == "supersedes"@);
            assert("text"@ != "supersedes"@) by {
                assert("text"@.len() != "supersedes"@.len());
            }
            assert(m.drop_first()[0] == m[1]);
            assert(crate::json::member(m.drop_first(), "supersedes"@) == Some(m[1].1));
            assert(crate::json::member(m, "supersedes"@) == Some(m[1].1));
        }
        calls.push(("am_salient".to_owned(), Json::Object(args)));
        k = k + 1;
    }
    calls
}

} // verus!
